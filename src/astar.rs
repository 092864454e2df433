//! A generic A* search engine.
use vstd::prelude::*;
use vstd::multiset::Multiset;
use crate::heap::MinHeap;
use std::collections::HashMap;
use crate::text::decimal;

verus! {

broadcast use vstd::multiset::group_multiset_axioms, vstd::std_specs::hash::group_hash_axioms;

/// The integer used for costs and heuristic scores.
pub type Score = i32;

/// What the search engine needs to know of a state of a search problem.
///
/// The engine reasons about states through their views: two states with equal
/// views are the same state.
pub trait State: Sized + View {
    /// The descriptor of one move, returned as part of a solution path.
    type Edge: Copy;

    /// The state reached by taking `e` in `v`, or `None` when `e` does not apply there.
    spec fn step(v: Self::V, e: Self::Edge) -> Option<Self::V>;

    /// The cost of taking `e` in `v`.
    spec fn step_cost(v: Self::V, e: Self::Edge) -> int;

    /// Whether `v` is a goal.
    spec fn goal(v: Self::V) -> bool;

    /// Every move out of this state, with the state it leads to and its cost.
    fn iter_successors(self) -> (r: Vec<(Self, Score, Self::Edge)>)
        ensures
            forall|i: int|
                0 <= i < r.len() ==> {
                    &&& Self::step(self@, #[trigger] r[i].2) == Some(r[i].0@)
                    &&& r[i].1 as int == Self::step_cost(self@, r[i].2)
                    &&& r[i].1 >= 0
                },
            forall|e: Self::Edge|
                #[trigger] Self::step(self@, e) is Some ==> exists|i: int|
                    0 <= i < r.len() && r[i].2 == e,
    ;

    /// Takes `edge` from this state, if it applies.
    fn try_edge(&self, edge: &Self::Edge) -> (r: Option<Self>)
        ensures
            r is Some <==> Self::step(self@, *edge) is Some,
            r is Some ==> Self::step(self@, *edge) == Some(r->0@),
    ;

    /// Whether this state is a goal.
    fn is_solved(&self) -> (r: bool)
        ensures
            r == Self::goal(self@),
    ;

    /// A number computed from a view alone, used to find a state among the visited ones.
    spec fn key_of(v: Self::V) -> u64;

    /// This state's key.
    fn key(&self) -> (r: u64)
        ensures
            r == Self::key_of(self@),
    ;

    /// Whether the two states are the same state.
    fn same_state(&self, other: &Self) -> (r: bool)
        ensures
            r == (self@ == other@),
    ;

    /// A copy of this state.
    fn duplicate(&self) -> (r: Self)
        ensures
            r@ == self@,
    ;
}

/// The state reached from `v` by taking the edges of `path` in order, if each applies.
pub open spec fn replay<S: State>(v: S::V, path: Seq<S::Edge>) -> Option<S::V>
    decreases path.len(),
{
    if path.len() == 0 {
        Some(v)
    } else {
        match replay::<S>(v, path.drop_last()) {
            Some(u) => S::step(u, path.last()),
            None => None,
        }
    }
}

/// The sum of the costs of the edges of `path`, taken in order from `v`.
pub open spec fn path_cost<S: State>(v: S::V, path: Seq<S::Edge>) -> int
    decreases path.len(),
{
    if path.len() == 0 {
        0
    } else {
        match replay::<S>(v, path.drop_last()) {
            Some(u) => path_cost::<S>(v, path.drop_last()) + S::step_cost(u, path.last()),
            None => 0,
        }
    }
}

/// The states that some path leads to from `v`.
pub open spec fn reachable<S: State>(v: S::V) -> Set<S::V> {
    Set::new(|w: S::V| exists|p: Seq<S::Edge>| replay::<S>(v, p) == Some(w))
}

/// Whether `path` leads from `v` to a goal.
pub open spec fn reaches_goal<S: State>(v: S::V, path: Seq<S::Edge>) -> bool {
    match replay::<S>(v, path) {
        Some(w) => S::goal(w),
        None => false,
    }
}

/// Whether `h` scores every state by `hs` of the state's view.
pub open spec fn scores_by<S: State, H: Fn(&S) -> Score>(h: H, hs: spec_fn(S::V) -> int) -> bool {
    forall|s: S, r: Score| #[trigger] h.ensures((&s,), r) ==> r as int == hs(s@)
}

/// Whether `hs` never drops by more than the cost of a move: `hs(v) <= cost(v, e) + hs(w)`
/// for every move `e` from `v` to `w`.
pub open spec fn consistent<S: State>(hs: spec_fn(S::V) -> int) -> bool {
    forall|v: S::V, e: S::Edge|
        #[trigger] S::step(v, e) is Some ==> hs(v) <= S::step_cost(v, e) + hs(S::step(v, e)->0)
}

/// Whether `hs` scores every goal with zero.
pub open spec fn zero_at_goals<S: State>(hs: spec_fn(S::V) -> int) -> bool {
    forall|v: S::V| #[trigger] S::goal(v) ==> hs(v) == 0
}

/// Whether `hs` never overestimates: from every state, every path to a goal costs at least
/// the state's score.
pub open spec fn admissible<S: State>(hs: spec_fn(S::V) -> int) -> bool {
    forall|v: S::V, p: Seq<S::Edge>|
        #[trigger] reaches_goal::<S>(v, p) ==> hs(v) <= path_cost::<S>(v, p)
}

/// Whether `h` scores states by a consistent function of their views.
pub open spec fn consistent_heuristic<S: State, H: Fn(&S) -> Score>(h: H) -> bool {
    exists|hs: spec_fn(S::V) -> int| scores_by::<S, H>(h, hs) && consistent::<S>(hs)
}

/// Whether `h` scores states by a consistent function of their views that is zero at goals
/// (such a function is admissible).
pub open spec fn exact_at_goals<S: State, H: Fn(&S) -> Score>(h: H) -> bool {
    exists|hs: spec_fn(S::V) -> int|
        scores_by::<S, H>(h, hs) && consistent::<S>(hs) && zero_at_goals::<S>(hs)
}

/// Whether `h` can be called on every state reachable from `v`.
pub open spec fn callable_on_reachable<S: State, H: Fn(&S) -> Score>(h: H, v: S::V) -> bool {
    forall|s: S| #[trigger] reachable::<S>(v).contains(s@) ==> h.requires((&s,))
}

/// Statistics about how difficult the problem was to solve.
pub struct SolveStats {
    /// The number of edges on the solution path.
    pub path_len: usize,
    /// The number of distinct states taken from the work queue and registered as visited.
    pub work_count: usize,
    /// The number of entries left in the work queue when the goal was found.
    pub work_queue_len: usize,
}

/// The one-line report of three counts.
pub open spec fn stats_text(path_len: usize, work_count: usize, work_queue_len: usize) -> Seq<char> {
    "Solved for "@ + decimal(path_len as nat) + " long path in "@ + decimal(work_count as nat)
        + " work steps. work queue len: "@ + decimal(work_queue_len as nat)
}

impl SolveStats {
    /// A one-line report of the statistics.
    pub fn to_string(&self) -> (r: String)
        ensures
            r@ == stats_text(self.path_len, self.work_count, self.work_queue_len),
    {
        format_stats(self.path_len, self.work_count, self.work_queue_len)
    }
}

/// Relies on std's `format!`: `{}` writes a `usize` as its decimal digits, and the rest of the
/// template is copied.
#[verifier::external_body]
fn format_stats(path_len: usize, work_count: usize, work_queue_len: usize) -> (r: String)
    ensures
        r@ == stats_text(path_len, work_count, work_queue_len),
{
    format!(
        "Solved for {} long path in {} work steps. work queue len: {}",
        path_len,
        work_count,
        work_queue_len,
    )
}

/// One entry of the work queue: a path from the initial state, with its cost and its
/// estimated total cost.
struct Node<S: State> {
    /// Estimated total cost: `cost` plus the heuristic's score of the state reached.
    score: i128,
    /// The cost of `path`.
    cost: i128,
    /// The edges leading from the initial state to this node's state.
    path: Vec<S::Edge>,
    /// The state that the heuristic scored for this node.
    state: Ghost<S>,
    /// The heuristic's score of that state.
    h: Ghost<Score>,
}

/// The largest cost of one move.
pub open spec fn max_step() -> int {
    i32::MAX as int
}

impl<S: State> Node<S> {
    /// The node is a path from `start` to `self.state`, with its cost and its score.
    spec fn valid<H: Fn(&S) -> Score>(&self, start: S::V, h: H) -> bool {
        &&& replay::<S>(start, self.path@) == Some(self.state@@)
        &&& self.cost == path_cost::<S>(start, self.path@)
        &&& 0 <= self.cost <= self.path@.len() * max_step()
        &&& h.ensures((&self.state@,), self.h@)
        &&& self.score == self.cost + self.h@
    }
}

/// The visited registry: the states taken from the work queue so far, in buckets by key.
struct Registry<S: State> {
    buckets: HashMap<u64, Vec<S>>,
    count: usize,
    seen: Ghost<Set<S::V>>,
}

impl<S: State> View for Registry<S> {
    type V = Set<S::V>;

    closed spec fn view(&self) -> Set<S::V> {
        self.seen@
    }
}

impl<S: State> Registry<S> {
    closed spec fn wf(&self) -> bool {
        &&& forall|k: u64, i: int|
            #![trigger self.buckets@[k][i]]
            self.buckets@.contains_key(k) && 0 <= i < self.buckets@[k].len() ==> S::key_of(self.buckets@[k][i]@) == k
                && self.seen@.contains(self.buckets@[k][i]@)
        &&& forall|v: S::V|
            #[trigger] self.seen@.contains(v) ==> self.buckets@.contains_key(S::key_of(v)) && exists|i: int|
                0 <= i < self.buckets@[S::key_of(v)].len() && (#[trigger] self.buckets@[S::key_of(v)][i])@ == v
        &&& self.seen@.finite()
        &&& self.seen@.len() == self.count
    }

    fn new() -> (r: Self)
        ensures
            r.wf(),
            r@ == Set::<S::V>::empty(),
    {
        Registry { buckets: HashMap::new(), count: 0, seen: Ghost(Set::empty()) }
    }

    fn contains(&self, s: &S) -> (r: bool)
        requires
            self.wf(),
        ensures
            r == self@.contains(s@),
    {
        let k = s.key();
        match self.buckets.get(&k) {
            None => false,
            Some(bucket) => {
                let mut i: usize = 0;
                while i < bucket.len()
                    invariant
                        self.wf(),
                        self.buckets@.contains_key(k),
                        *bucket == self.buckets@[k],
                        k == S::key_of(s@),
                        i <= bucket.len(),
                        forall|j: int| 0 <= j < i ==> (#[trigger] bucket[j])@ != s@,
                    decreases bucket.len() - i,
                {
                    if bucket[i].same_state(s) {
                        assert(self.buckets@[k][i as int]@ == s@);
                        return true;
                    }
                    i += 1;
                }
                proof {
                    if self@.contains(s@) {
                        let j = choose|j: int| 0 <= j < self.buckets@[k].len() && (#[trigger] self.buckets@[k][j])@ == s@;
                        assert(bucket[j]@ == s@);
                    }
                }
                false
            },
        }
    }

    fn insert(&mut self, s: S)
        requires
            old(self).wf(),
            !old(self)@.contains(s@),
            old(self)@.len() < usize::MAX,
        ensures
            final(self).wf(),
            final(self)@ == old(self)@.insert(s@),
    {
        let k = s.key();
        let ghost m0 = self.buckets@;
        let mut bucket = match self.buckets.remove(&k) {
            Some(b) => b,
            None => Vec::new(),
        };
        let ghost b0 = bucket@;
        assert(m0.contains_key(k) ==> b0 == m0[k]@);
        assert(!m0.contains_key(k) ==> b0.len() == 0);
        bucket.push(s);
        let ghost bnew = bucket;
        self.buckets.insert(k, bucket);
        self.count = self.count + 1;
        proof {
            let v = s@;
            self.seen@ = self.seen@.insert(v);
            let m = self.buckets@;
            assert(m.contains_key(k) && m[k] == bnew && bnew@ == b0.push(s));
            assert(forall|k2: u64| k2 != k ==> (m.contains_key(k2) == m0.contains_key(k2)));
            assert(forall|k2: u64| k2 != k && m.contains_key(k2) ==> m[k2] == m0[k2]);
            assert forall|k2: u64, i: int|
                #![trigger m[k2][i]]
                m.contains_key(k2) && 0 <= i < m[k2].len() implies S::key_of(m[k2][i]@) == k2 && self.seen@.contains(
                    m[k2][i]@,
                ) by {
                if k2 == k {
                    if i < b0.len() {
                        assert(m[k2][i] == m0[k][i]);
                    }
                } else {
                    assert(m[k2] == m0[k2]);
                }
            }
            assert forall|w: S::V| #[trigger] self.seen@.contains(w) implies m.contains_key(S::key_of(w)) && exists|i: int|
                0 <= i < m[S::key_of(w)].len() && (#[trigger] m[S::key_of(w)][i])@ == w by {
                if w == v {
                    assert(m[k][b0.len() as int] == s);
                } else {
                    let kw = S::key_of(w);
                    let i = choose|i: int| 0 <= i < m0[kw].len() && (#[trigger] m0[kw][i])@ == w;
                    if kw == k {
                        assert(m[kw][i] == m0[kw][i]);
                    } else {
                        assert(m[kw] == m0[kw]);
                    }
                }
            }
        }
    }

    fn len(&self) -> (r: usize)
        requires
            self.wf(),
        ensures
            r == self@.len(),
    {
        self.count
    }
}

/// The queue's entries: a key, the node's score, and the index of the node in the arena of
/// nodes.
type Live = Multiset<(i128, usize)>;

/// Some entry of the queue is a node with a path to `w` that costs at most `bound`.
spec fn has_node<S: State>(live: Live, arena: Seq<Node<S>>, w: S::V, bound: int) -> bool {
    exists|e: (i128, usize)|
        #![trigger live.contains(e)]
        live.contains(e) && e.1 < arena.len() && arena[e.1 as int].state@@ == w && arena[e.1 as int].cost <= bound
}

/// Each move out of a visited state leads to a visited state, or the queue holds a path to
/// its target that costs at most the source's recorded cost plus the move's cost.
spec fn edges_covered<S: State>(seen: Set<S::V>, best: Map<S::V, int>, live: Live, arena: Seq<Node<S>>) -> bool {
    forall|u: S::V, e: S::Edge|
        seen.contains(u) && #[trigger] S::step(u, e) is Some ==> seen.contains(S::step(u, e)->0)
            || has_node(live, arena, S::step(u, e)->0, best[u] + S::step_cost(u, e))
}

/// The initial state is visited, or the queue holds the empty path to it.
spec fn start_covered<S: State>(start: S::V, seen: Set<S::V>, live: Live, arena: Seq<Node<S>>) -> bool {
    seen.contains(start) || has_node(live, arena, start, 0)
}

/// The recorded cost of each visited state is no more than that of any path to it.
spec fn best_is_least<S: State>(start: S::V, seen: Set<S::V>, best: Map<S::V, int>) -> bool {
    forall|u: S::V, p: Seq<S::Edge>|
        #![trigger seen.contains(u), replay::<S>(start, p)]
        seen.contains(u) && replay::<S>(start, p) == Some(u) ==> best[u] <= path_cost::<S>(start, p)
}

proof fn lemma_replay_push<S: State>(v: S::V, p: Seq<S::Edge>, e: S::Edge)
    ensures
        replay::<S>(v, p.push(e)) == match replay::<S>(v, p) {
            Some(u) => S::step(u, e),
            None => None,
        },
        replay::<S>(v, p) is Some ==> path_cost::<S>(v, p.push(e)) == path_cost::<S>(v, p)
            + S::step_cost(replay::<S>(v, p)->0, e),
{
    assert(p.push(e).drop_last() =~= p);
}

proof fn lemma_replay_prefix<S: State>(v: S::V, p: Seq<S::Edge>, i: int)
    requires
        0 <= i <= p.len(),
        replay::<S>(v, p) is Some,
    ensures
        replay::<S>(v, p.subrange(0, i)) is Some,
    decreases p.len() - i,
{
    if i < p.len() {
        lemma_replay_prefix::<S>(v, p, i + 1);
        assert(p.subrange(0, i + 1).drop_last() =~= p.subrange(0, i));
    } else {
        assert(p.subrange(0, i) =~= p);
    }
}

proof fn lemma_remove_keeps<S: State>(live: Live, arena: Seq<Node<S>>, x: (i128, usize), w: S::V, bound: int)
    requires
        live.contains(x),
        x.1 < arena.len(),
        has_node(live, arena, w, bound),
        arena[x.1 as int].state@@ != w,
    ensures
        has_node(live.remove(x), arena, w, bound),
{
    let e = choose|e: (i128, usize)|
        #![trigger live.contains(e)]
        live.contains(e) && e.1 < arena.len() && arena[e.1 as int].state@@ == w && arena[e.1 as int].cost <= bound;
    assert(e != x);
    assert(live.remove(x).contains(e));
}

proof fn lemma_push_keeps<S: State>(
    live: Live,
    arena: Seq<Node<S>>,
    x: (i128, usize),
    n: Node<S>,
    w: S::V,
    bound: int,
)
    requires
        has_node(live, arena, w, bound),
    ensures
        has_node(live.insert(x), arena.push(n), w, bound),
{
    let e = choose|e: (i128, usize)|
        #![trigger live.contains(e)]
        live.contains(e) && e.1 < arena.len() && arena[e.1 as int].state@@ == w && arena[e.1 as int].cost <= bound;
    assert(arena.push(n)[e.1 as int] == arena[e.1 as int]);
    assert(live.insert(x).contains(e));
}

/// A state that some path reaches and that is not visited has a node in the queue.
proof fn lemma_open_state<S: State>(
    start: S::V,
    p: Seq<S::Edge>,
    w: S::V,
    seen: Set<S::V>,
    best: Map<S::V, int>,
    live: Live,
    arena: Seq<Node<S>>,
)
    requires
        replay::<S>(start, p) == Some(w),
        !seen.contains(w),
        start_covered::<S>(start, seen, live, arena),
        edges_covered::<S>(seen, best, live, arena),
    ensures
        live.len() > 0,
    decreases p.len(),
{
    if p.len() > 0 {
        let u = replay::<S>(start, p.drop_last())->0;
        if seen.contains(u) {
            assert(S::step(u, p.last()) is Some);
            assert(has_node(live, arena, w, best[u] + S::step_cost(u, p.last())));
        } else {
            lemma_open_state::<S>(start, p.drop_last(), u, seen, best, live, arena);
        }
    }
}

/// Along a path to a state that is not visited, the queue holds a node whose cost plus score
/// is at most the path's cost plus the state's score.
proof fn lemma_open_state_cost<S: State>(
    start: S::V,
    p: Seq<S::Edge>,
    w: S::V,
    seen: Set<S::V>,
    best: Map<S::V, int>,
    live: Live,
    arena: Seq<Node<S>>,
    hs: spec_fn(S::V) -> int,
)
    requires
        replay::<S>(start, p) == Some(w),
        !seen.contains(w),
        start_covered::<S>(start, seen, live, arena),
        edges_covered::<S>(seen, best, live, arena),
        best_is_least::<S>(start, seen, best),
        consistent::<S>(hs),
    ensures
        exists|e: (i128, usize)|
            #![trigger live.contains(e)]
            live.contains(e) && e.1 < arena.len() && arena[e.1 as int].cost + hs(arena[e.1 as int].state@@)
                <= path_cost::<S>(start, p) + hs(w),
    decreases p.len(),
{
    if p.len() == 0 {
        let e = choose|e: (i128, usize)|
            #![trigger live.contains(e)]
            live.contains(e) && e.1 < arena.len() && arena[e.1 as int].state@@ == start && arena[e.1 as int].cost <= 0;
        assert(arena[e.1 as int].cost + hs(arena[e.1 as int].state@@) <= path_cost::<S>(start, p) + hs(w));
    } else {
        let q = p.drop_last();
        let x = p.last();
        let u = replay::<S>(start, q)->0;
        assert(S::step(u, x) is Some);
        if seen.contains(u) {
            let bound = best[u] + S::step_cost(u, x);
            assert(has_node(live, arena, w, bound));
            let e = choose|e: (i128, usize)|
                #![trigger live.contains(e)]
                live.contains(e) && e.1 < arena.len() && arena[e.1 as int].state@@ == w && arena[e.1 as int].cost <= bound;
            assert(best[u] <= path_cost::<S>(start, q));
            assert(arena[e.1 as int].cost + hs(arena[e.1 as int].state@@) <= path_cost::<S>(start, p) + hs(w));
        } else {
            lemma_open_state_cost::<S>(start, q, u, seen, best, live, arena, hs);
        }
    }
}

/// A copy of `path`.
fn path_copy<E: Copy>(path: &Vec<E>) -> (r: Vec<E>)
    ensures
        r@ == path@,
{
    let mut r: Vec<E> = Vec::new();
    let mut i: usize = 0;
    while i < path.len()
        invariant
            i <= path.len(),
            r@ == path@.subrange(0, i as int),
        decreases path.len() - i,
    {
        r.push(path[i]);
        i += 1;
        proof {
            assert(r@ =~= path@.subrange(0, i as int));
        }
    }
    proof {
        assert(path@.subrange(0, path.len() as int) =~= path@);
    }
    r
}

/// `path` followed by `e`.
fn path_with<E: Copy>(path: &Vec<E>, e: E) -> (r: Vec<E>)
    ensures
        r@ == path@.push(e),
{
    let mut r = path_copy(path);
    r.push(e);
    r
}

/// A* search from `initial_state`, guided by `heuristic`, that also reports whether the
/// estimated total costs of the nodes taken from the work queue never decreased from one
/// node to the next (a smoke test of the heuristic: it holds for every consistent one).
///
/// Returns the path to the first goal taken from the queue, with statistics, or `None` when
/// no goal is reachable.
pub fn solve_checked<S: State, H: Fn(&S) -> Score>(initial_state: S, heuristic: H) -> (r: (
    Option<(Vec<S::Edge>, SolveStats)>,
    bool,
))
    requires
        reachable::<S>(initial_state@).finite(),
        callable_on_reachable::<S, H>(heuristic, initial_state@),
    ensures
        r.0 is Some ==> {
            let (path, stats) = r.0->0;
            &&& reaches_goal::<S>(initial_state@, path@)
            &&& stats.path_len == path.len()
            &&& 1 <= stats.work_count <= reachable::<S>(initial_state@).len()
            &&& exact_at_goals::<S, H>(heuristic) ==> forall|p: Seq<S::Edge>|
                #[trigger] reaches_goal::<S>(initial_state@, p) ==> path_cost::<S>(initial_state@, path@)
                    <= path_cost::<S>(initial_state@, p)
        },
        r.0 is None <==> forall|p: Seq<S::Edge>| !#[trigger] reaches_goal::<S>(initial_state@, p),
        S::goal(initial_state@) ==> r.0 is Some && (r.0->0).0.len() == 0 && (r.0->0).1.work_count == 1
            && (r.0->0).1.work_queue_len == 0,
        consistent_heuristic::<S, H>(heuristic) ==> r.1,
{
    let ghost start = initial_state@;
    let ghost reach = reachable::<S>(start);
    proof {
        assert(replay::<S>(start, Seq::<S::Edge>::empty()) == Some(start));
        assert(reach.contains(start));
    }
    let h0 = heuristic(&initial_state);
    let first = Node::<S> {
        score: h0 as i128,
        cost: 0,
        path: Vec::new(),
        state: Ghost(initial_state),
        h: Ghost(h0),
    };
    // Nodes are kept in an arena; the queue orders their indices by score.
    let mut arena: Vec<Node<S>> = Vec::new();
    arena.push(first);
    let mut queue = MinHeap::new();
    queue.push((h0 as i128, 0));
    let mut visited: Registry<S> = Registry::new();
    let ghost mut best: Map<S::V, int> = Map::empty();
    let mut last_score: i128 = 0;
    let mut popped_any = false;
    let mut monotone = true;
    proof {
        assert(arena@[0] == first);
        assert(queue@.contains((h0 as i128, 0usize)));
        assert(has_node(queue@, arena@, start, 0));
    }
    while queue.len() > 0
        invariant
            start == initial_state@,
            reach == reachable::<S>(start),
            reach.finite(),
            callable_on_reachable::<S, H>(heuristic, start),
            visited.wf(),
            queue.wf(),
            visited@.len() + queue@.len() <= arena.len(),
            forall|k: int| 0 <= k < arena.len() ==> (#[trigger] arena[k]).valid(start, heuristic),
            forall|e: (i128, usize)| #[trigger]
                queue@.contains(e) ==> e.1 < arena.len() && arena[e.1 as int].score == e.0,
            forall|v: S::V| #[trigger] visited@.contains(v) ==> reach.contains(v) && !S::goal(v),
            forall|v: S::V| #[trigger] visited@.contains(v) ==> best.dom().contains(v),
            start_covered::<S>(start, visited@, queue@, arena@),
            edges_covered::<S>(visited@, best, queue@, arena@),
            exact_at_goals::<S, H>(heuristic) ==> best_is_least::<S>(start, visited@, best),
            consistent_heuristic::<S, H>(heuristic) ==> monotone && (popped_any ==> forall|e: (i128, usize)| #[trigger]
                queue@.contains(e) ==> last_score <= e.0),
            S::goal(start) ==> visited@.len() == 0 && queue@.len() == 1 && forall|e: (i128, usize)| #[trigger]
                queue@.contains(e) ==> arena[e.1 as int].path.len() == 0,
        decreases reach.len() - visited@.len(), queue@.len(),
    {
        let ghost live = queue@;
        let top = queue.pop();
        let slot = top.1;
        let ghost nd = arena[slot as int];
        assert(nd.valid(start, heuristic));
        assert forall|e: (i128, usize)| #[trigger] queue@.contains(e) implies live.contains(e) by {
            assert(live.remove(top).count(e) <= live.count(e));
        }
        if popped_any && top.0 < last_score {
            monotone = false;
        }
        popped_any = true;
        last_score = top.0;

        // Rebuild the node's state by taking its edges from the initial state.
        let mut state = initial_state.duplicate();
        let mut i: usize = 0;
        while i < arena[slot].path.len()
            invariant
                slot < arena.len(),
                arena[slot as int] == nd,
                i <= nd.path.len(),
                nd.valid(start, heuristic),
                replay::<S>(start, nd.path@.subrange(0, i as int)) == Some(state@),
            decreases nd.path.len() - i,
        {
            proof {
                lemma_replay_prefix::<S>(start, nd.path@, i + 1);
                lemma_replay_push::<S>(start, nd.path@.subrange(0, i as int), nd.path[i as int]);
                assert(nd.path@.subrange(0, i as int).push(nd.path[i as int]) =~= nd.path@.subrange(0, i + 1));
            }
            match state.try_edge(&arena[slot].path[i]) {
                Some(next) => {
                    state = next;
                },
                None => {
                    proof {
                        assert(false);
                    }
                    return (None, monotone);
                },
            }
            i += 1;
        }
        proof {
            assert(nd.path@.subrange(0, nd.path.len() as int) =~= nd.path@);
            assert(state@ == nd.state@@);
        }
        if visited.contains(&state) {
            proof {
                assert forall|u: S::V, e: S::Edge|
                    visited@.contains(u) && #[trigger] S::step(u, e) is Some implies visited@.contains(S::step(u, e)->0)
                        || has_node(queue@, arena@, S::step(u, e)->0, best[u] + S::step_cost(u, e)) by {
                    if !visited@.contains(S::step(u, e)->0) {
                        lemma_remove_keeps::<S>(live, arena@, top, S::step(u, e)->0, best[u] + S::step_cost(u, e));
                    }
                }
                if !visited@.contains(start) {
                    lemma_remove_keeps::<S>(live, arena@, top, start, 0);
                }
            }
            continue;
        }
        let ghost u = state@;
        let ghost old_seen = visited@;
        proof {
            // The cost of the node is the least of any path to its state; with a score that is
            // zero at goals, no path to a goal costs less.
            if exact_at_goals::<S, H>(heuristic) {
                let hs = choose|hs: spec_fn(S::V) -> int|
                    scores_by::<S, H>(heuristic, hs) && consistent::<S>(hs) && zero_at_goals::<S>(hs);
                assert forall|p: Seq<S::Edge>, w: S::V|
                    #![trigger replay::<S>(start, p), old_seen.contains(w)]
                    replay::<S>(start, p) == Some(w) && !old_seen.contains(w) implies nd.cost + hs(u)
                        <= path_cost::<S>(start, p) + hs(w) by {
                    lemma_open_state_cost::<S>(start, p, w, old_seen, best, live, arena@, hs);
                    let e = choose|e: (i128, usize)|
                        #![trigger live.contains(e)]
                        live.contains(e) && e.1 < arena.len() && arena[e.1 as int].cost + hs(arena[e.1 as int].state@@)
                            <= path_cost::<S>(start, p) + hs(w);
                    assert(arena[e.1 as int].valid(start, heuristic));
                    assert(top.0 <= e.0);
                }
            }
        }
        visited.insert(state.duplicate());
        proof {
            best = best.insert(u, nd.cost as int);
            assert(replay::<S>(start, nd.path@) == Some(u));
            assert(reach.contains(u));
            if !visited@.contains(start) {
                lemma_remove_keeps::<S>(live, arena@, top, start, 0);
            }
        }
        if state.is_solved() {
            let stats = SolveStats { path_len: arena[slot].path.len(), work_count: visited.len(), work_queue_len: queue.len() };
            let path = path_copy(&arena[slot].path);
            proof {
                assert(reaches_goal::<S>(start, path@));
                assert(visited@.subset_of(reach));
                vstd::set_lib::lemma_len_subset(visited@, reach);
                if exact_at_goals::<S, H>(heuristic) {
                    assert forall|p: Seq<S::Edge>| #[trigger] reaches_goal::<S>(start, p) implies path_cost::<S>(
                        start,
                        path@,
                    ) <= path_cost::<S>(start, p) by {
                        let hs = choose|hs: spec_fn(S::V) -> int|
                            scores_by::<S, H>(heuristic, hs) && consistent::<S>(hs) && zero_at_goals::<S>(hs);
                        let w = replay::<S>(start, p)->0;
                        assert(!old_seen.contains(w));
                        assert(replay::<S>(start, p) == Some(w));
                        assert(nd.cost + hs(u) <= path_cost::<S>(start, p) + hs(w));
                    }
                }
            }
            return (Some((path, stats)), monotone);
        }
        proof {
            assert(!S::goal(start)) by {
                if S::goal(start) {
                    assert(live.contains(top));
                    assert(replay::<S>(start, nd.path@) == Some(start));
                }
            }
            assert forall|u2: S::V, e: S::Edge|
                old_seen.contains(u2) && #[trigger] S::step(u2, e) is Some implies visited@.contains(S::step(u2, e)->0)
                    || has_node(queue@, arena@, S::step(u2, e)->0, best[u2] + S::step_cost(u2, e)) by {
                let w = S::step(u2, e)->0;
                if !visited@.contains(w) {
                    assert(has_node(live, arena@, w, best[u2] + S::step_cost(u2, e)));
                    lemma_remove_keeps::<S>(live, arena@, top, w, best[u2] + S::step_cost(u2, e));
                }
            }
        }
        let succs = state.iter_successors();
        let mut j: usize = 0;
        while j < succs.len()
            invariant
                0 <= j <= succs.len(),
                reach == reachable::<S>(start),
                reach.contains(u),
                callable_on_reachable::<S, H>(heuristic, start),
                queue.wf(),
                visited@.len() + queue@.len() <= arena.len(),
                slot < arena.len(),
                arena[slot as int] == nd,
                nd.valid(start, heuristic),
                nd.state@@ == u,
                last_score == nd.score,
                best[u] == nd.cost,
                visited@ == old_seen.insert(u),
                forall|i: int|
                    0 <= i < succs.len() ==> {
                        &&& S::step(u, #[trigger] succs[i].2) == Some(succs[i].0@)
                        &&& succs[i].1 as int == S::step_cost(u, succs[i].2)
                        &&& succs[i].1 >= 0
                    },
                forall|k: int| 0 <= k < arena.len() ==> (#[trigger] arena[k]).valid(start, heuristic),
                forall|e: (i128, usize)| #[trigger]
                    queue@.contains(e) ==> e.1 < arena.len() && arena[e.1 as int].score == e.0,
                forall|i: int|
                    0 <= i < j ==> has_node(queue@, arena@, (#[trigger] succs[i]).0@, nd.cost + succs[i].1),
                forall|u2: S::V, e: S::Edge|
                    old_seen.contains(u2) && #[trigger] S::step(u2, e) is Some ==> visited@.contains(S::step(u2, e)->0)
                        || has_node(queue@, arena@, S::step(u2, e)->0, best[u2] + S::step_cost(u2, e)),
                start_covered::<S>(start, visited@, queue@, arena@),
                consistent_heuristic::<S, H>(heuristic) ==> forall|e: (i128, usize)| #[trigger]
                    queue@.contains(e) ==> last_score <= e.0,
            decreases succs.len() - j,
        {
            let step_cost = succs[j].1;
            let edge = succs[j].2;
            let ghost next = succs[j as int].0;
            let new_path = path_with(&arena[slot].path, edge);
            proof {
                lemma_replay_push::<S>(start, nd.path@, edge);
                assert(replay::<S>(start, new_path@) == Some(next@));
                assert(reach.contains(next@));
                assert(new_path@.len() == new_path.len());
                let len = nd.path@.len();
                assert(len + 1 <= usize::MAX);
                assert(nd.cost + step_cost <= (len + 1) * max_step()) by (nonlinear_arith)
                    requires
                        nd.cost <= len * max_step(),
                        step_cost <= max_step(),
                        max_step() == 2147483647;
                assert((len + 1) * max_step() <= usize::MAX * max_step()) by (nonlinear_arith)
                    requires
                        len + 1 <= usize::MAX,
                        max_step() == 2147483647;
            }
            let hv = heuristic(&succs[j].0);
            let cost = arena[slot].cost + step_cost as i128;
            let score = cost + hv as i128;
            let new_node = Node::<S> { score, cost, path: new_path, state: Ghost(next), h: Ghost(hv) };
            let ghost live0 = queue@;
            let ghost arena0 = arena@;
            let index = arena.len();
            arena.push(new_node);
            queue.push((score, index));
            proof {
                let x = (score, index);
                assert(arena@ == arena0.push(new_node));
                assert(arena[index as int] == new_node);
                assert(queue@.contains(x));
                assert(has_node(queue@, arena@, next@, nd.cost + step_cost));
                assert forall|e: (i128, usize)| #[trigger] queue@.contains(e) implies e.1 < arena.len() && arena[e.1 as int].score == e.0 by {
                    if e != x {
                        assert(live0.contains(e));
                        assert(arena[e.1 as int] == arena0[e.1 as int]);
                    }
                }
                assert forall|i: int| 0 <= i < j implies has_node(queue@, arena@, (#[trigger] succs[i]).0@, nd.cost + succs[i].1) by {
                    lemma_push_keeps::<S>(live0, arena0, x, new_node, succs[i].0@, nd.cost + succs[i].1);
                }
                assert forall|u2: S::V, e: S::Edge|
                    old_seen.contains(u2) && #[trigger] S::step(u2, e) is Some implies visited@.contains(S::step(u2, e)->0)
                        || has_node(queue@, arena@, S::step(u2, e)->0, best[u2] + S::step_cost(u2, e)) by {
                    let w = S::step(u2, e)->0;
                    if !visited@.contains(w) {
                        lemma_push_keeps::<S>(live0, arena0, x, new_node, w, best[u2] + S::step_cost(u2, e));
                    }
                }
                if !visited@.contains(start) {
                    lemma_push_keeps::<S>(live0, arena0, x, new_node, start, 0);
                }
                if consistent_heuristic::<S, H>(heuristic) {
                    let hs = choose|hs: spec_fn(S::V) -> int| scores_by::<S, H>(heuristic, hs) && consistent::<S>(hs);
                    assert(S::step(u, edge) is Some);
                    assert(nd.h@ == hs(u));
                    assert(hv == hs(next@));
                    assert forall|e: (i128, usize)| #[trigger] queue@.contains(e) implies last_score <= e.0 by {
                        if e != x {
                            assert(live0.contains(e));
                        }
                    }
                }
            }
            j += 1;
        }
        proof {
            assert forall|u2: S::V, e: S::Edge|
                visited@.contains(u2) && #[trigger] S::step(u2, e) is Some implies visited@.contains(S::step(u2, e)->0)
                    || has_node(queue@, arena@, S::step(u2, e)->0, best[u2] + S::step_cost(u2, e)) by {
                if u2 == u {
                    let i = choose|i: int| 0 <= i < succs.len() && succs[i].2 == e;
                    assert(S::step(u, succs[i].2) == Some(succs[i].0@));
                }
            }
            assert(visited@.subset_of(reach));
            vstd::set_lib::lemma_len_subset(visited@, reach);
        }
    }
    proof {
        assert forall|p: Seq<S::Edge>| !#[trigger] reaches_goal::<S>(start, p) by {
            if reaches_goal::<S>(start, p) {
                let w = replay::<S>(start, p)->0;
                lemma_open_state::<S>(start, p, w, visited@, best, queue@, arena@);
            }
        }
    }
    (None, monotone)
}

/// A* search from `initial_state`, guided by `heuristic`.
///
/// Returns the path to the first goal taken from the work queue, with statistics, or `None`
/// when no goal is reachable. The path is a least-cost one when the heuristic is consistent
/// and zero at goals.
pub fn solve<S: State, H: Fn(&S) -> Score>(initial_state: S, heuristic: H) -> (r: Option<
    (Vec<S::Edge>, SolveStats),
>)
    requires
        reachable::<S>(initial_state@).finite(),
        callable_on_reachable::<S, H>(heuristic, initial_state@),
    ensures
        r is Some ==> {
            let (path, stats) = r->0;
            &&& reaches_goal::<S>(initial_state@, path@)
            &&& stats.path_len == path.len()
            &&& 1 <= stats.work_count <= reachable::<S>(initial_state@).len()
            &&& exact_at_goals::<S, H>(heuristic) ==> forall|p: Seq<S::Edge>|
                #[trigger] reaches_goal::<S>(initial_state@, p) ==> path_cost::<S>(initial_state@, path@)
                    <= path_cost::<S>(initial_state@, p)
        },
        r is None <==> forall|p: Seq<S::Edge>| !#[trigger] reaches_goal::<S>(initial_state@, p),
        S::goal(initial_state@) ==> r is Some && (r->0).0.len() == 0 && (r->0).1.work_count == 1
            && (r->0).1.work_queue_len == 0,
{
    solve_checked(initial_state, heuristic).0
}

/// A score that is consistent and zero at goals never overestimates the cost of reaching a
/// goal.
pub proof fn lemma_exact_is_admissible<S: State>(hs: spec_fn(S::V) -> int)
    requires
        consistent::<S>(hs),
        zero_at_goals::<S>(hs),
    ensures
        admissible::<S>(hs),
{
    assert forall|v: S::V, p: Seq<S::Edge>| #[trigger] reaches_goal::<S>(v, p) implies hs(v) <= path_cost::<S>(
        v,
        p,
    ) by {
        lemma_score_along_path::<S>(hs, v, p);
    }
}

/// Along a path, a consistent score drops by no more than the path's cost.
proof fn lemma_score_along_path<S: State>(hs: spec_fn(S::V) -> int, v: S::V, p: Seq<S::Edge>)
    requires
        consistent::<S>(hs),
        replay::<S>(v, p) is Some,
    ensures
        hs(v) <= path_cost::<S>(v, p) + hs(replay::<S>(v, p)->0),
    decreases p.len(),
{
    if p.len() > 0 {
        let q = p.drop_last();
        lemma_score_along_path::<S>(hs, v, q);
        assert(S::step(replay::<S>(v, q)->0, p.last()) is Some);
    }
}

/// With moves of non-negative cost, a heuristic that scores every state zero is consistent
/// and zero at goals: `solve` guided by it finds a least-cost path.
pub proof fn lemma_zero_heuristic<S: State, H: Fn(&S) -> Score>(h: H)
    requires
        forall|s: S, r: Score| #[trigger] h.ensures((&s,), r) ==> r == 0,
        forall|v: S::V, e: S::Edge| #[trigger] S::step(v, e) is Some ==> S::step_cost(v, e) >= 0,
    ensures
        exact_at_goals::<S, H>(h),
{
    let hs = |v: S::V| 0int;
    assert(scores_by::<S, H>(h, hs));
    assert(consistent::<S>(hs));
    assert(zero_at_goals::<S>(hs));
}

} // verus!
