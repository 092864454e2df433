//! Search problems given as an explicit weighted directed graph, for which `solve` is a
//! shortest-path search.
use vstd::prelude::*;
use crate::astar::{Score, State, reachable, replay};

verus! {

/// A directed arc between two nodes, with its cost.
#[derive(Clone, Copy, Debug, PartialEq, Eq, Hash, Structural)]
pub struct Arc {
    pub from: u32,
    pub to: u32,
    pub cost: i32,
}

/// A position in a graph: the node reached, the graph's arcs and its goal nodes. Arcs of
/// negative cost are never taken.
#[derive(Clone, Debug, PartialEq, Eq, Hash)]
pub struct GraphState {
    pub at: u32,
    pub arcs: Vec<Arc>,
    pub goals: Vec<u32>,
}

impl View for GraphState {
    type V = (u32, Seq<Arc>, Seq<u32>);

    open spec fn view(&self) -> (u32, Seq<Arc>, Seq<u32>) {
        (self.at, self.arcs@, self.goals@)
    }
}

fn copy_arcs(arcs: &Vec<Arc>) -> (r: Vec<Arc>)
    ensures
        r@ == arcs@,
{
    let mut r: Vec<Arc> = Vec::new();
    let mut i: usize = 0;
    while i < arcs.len()
        invariant
            i <= arcs.len(),
            r@ == arcs@.subrange(0, i as int),
        decreases arcs.len() - i,
    {
        r.push(arcs[i]);
        i += 1;
        assert(r@ =~= arcs@.subrange(0, i as int));
    }
    assert(arcs@.subrange(0, arcs.len() as int) =~= arcs@);
    r
}

fn copy_nodes(nodes: &Vec<u32>) -> (r: Vec<u32>)
    ensures
        r@ == nodes@,
{
    let mut r: Vec<u32> = Vec::new();
    let mut i: usize = 0;
    while i < nodes.len()
        invariant
            i <= nodes.len(),
            r@ == nodes@.subrange(0, i as int),
        decreases nodes.len() - i,
    {
        r.push(nodes[i]);
        i += 1;
        assert(r@ =~= nodes@.subrange(0, i as int));
    }
    assert(nodes@.subrange(0, nodes.len() as int) =~= nodes@);
    r
}

fn contains_arc(arcs: &Vec<Arc>, a: Arc) -> (r: bool)
    ensures
        r == arcs@.contains(a),
{
    let mut i: usize = 0;
    while i < arcs.len()
        invariant
            i <= arcs.len(),
            forall|j: int| 0 <= j < i ==> arcs@[j] != a,
        decreases arcs.len() - i,
    {
        if arcs[i] == a {
            assert(arcs@[i as int] == a);
            return true;
        }
        i += 1;
    }
    false
}

fn contains_node(nodes: &Vec<u32>, n: u32) -> (r: bool)
    ensures
        r == nodes@.contains(n),
{
    let mut i: usize = 0;
    while i < nodes.len()
        invariant
            i <= nodes.len(),
            forall|j: int| 0 <= j < i ==> nodes@[j] != n,
        decreases nodes.len() - i,
    {
        if nodes[i] == n {
            assert(nodes@[i as int] == n);
            return true;
        }
        i += 1;
    }
    false
}

fn same_arcs(a: &Vec<Arc>, b: &Vec<Arc>) -> (r: bool)
    ensures
        r == (a@ == b@),
{
    if a.len() != b.len() {
        return false;
    }
    let mut i: usize = 0;
    while i < a.len()
        invariant
            i <= a.len() == b.len(),
            forall|j: int| 0 <= j < i ==> a@[j] == b@[j],
        decreases a.len() - i,
    {
        if a[i] != b[i] {
            return false;
        }
        i += 1;
    }
    assert(a@ =~= b@);
    true
}

fn same_nodes(a: &Vec<u32>, b: &Vec<u32>) -> (r: bool)
    ensures
        r == (a@ == b@),
{
    if a.len() != b.len() {
        return false;
    }
    let mut i: usize = 0;
    while i < a.len()
        invariant
            i <= a.len() == b.len(),
            forall|j: int| 0 <= j < i ==> a@[j] == b@[j],
        decreases a.len() - i,
    {
        if a[i] != b[i] {
            return false;
        }
        i += 1;
    }
    assert(a@ =~= b@);
    true
}

impl State for GraphState {
    type Edge = Arc;

    open spec fn step(v: (u32, Seq<Arc>, Seq<u32>), e: Arc) -> Option<(u32, Seq<Arc>, Seq<u32>)> {
        if v.1.contains(e) && e.from == v.0 && e.cost >= 0 {
            Some((e.to, v.1, v.2))
        } else {
            None
        }
    }

    open spec fn step_cost(v: (u32, Seq<Arc>, Seq<u32>), e: Arc) -> int {
        e.cost as int
    }

    open spec fn goal(v: (u32, Seq<Arc>, Seq<u32>)) -> bool {
        v.2.contains(v.0)
    }

    open spec fn key_of(v: (u32, Seq<Arc>, Seq<u32>)) -> u64 {
        v.0 as u64
    }

    fn key(&self) -> (r: u64) {
        self.at as u64
    }

    fn iter_successors(self) -> (r: Vec<(GraphState, Score, Arc)>) {
        let mut r: Vec<(GraphState, Score, Arc)> = Vec::new();
        let mut i: usize = 0;
        while i < self.arcs.len()
            invariant
                i <= self.arcs.len(),
                forall|k: int|
                    0 <= k < r.len() ==> {
                        &&& Self::step(self@, #[trigger] r[k].2) == Some(r[k].0@)
                        &&& r[k].1 as int == Self::step_cost(self@, r[k].2)
                        &&& r[k].1 >= 0
                    },
                forall|j: int|
                    0 <= j < i && self.arcs@[j].from == self.at && self.arcs@[j].cost >= 0 ==> exists|k: int|
                        0 <= k < r.len() && r[k].2 == #[trigger] self.arcs@[j],
            decreases self.arcs.len() - i,
        {
            let a = self.arcs[i];
            if a.from == self.at && a.cost >= 0 {
                let next = GraphState { at: a.to, arcs: copy_arcs(&self.arcs), goals: copy_nodes(&self.goals) };
                let ghost before = r@;
                assert(self.arcs@.contains(a)) by {
                    assert(self.arcs@[i as int] == a);
                }
                r.push((next, a.cost, a));
                assert forall|j: int|
                    0 <= j < i + 1 && self.arcs@[j].from == self.at && self.arcs@[j].cost >= 0 implies exists|k: int|
                        0 <= k < r.len() && r[k].2 == #[trigger] self.arcs@[j] by {
                    if j < i {
                        let k = choose|k: int| 0 <= k < before.len() && before[k].2 == self.arcs@[j];
                        assert(r[k] == before[k]);
                    } else {
                        assert(r[r.len() - 1].2 == a);
                    }
                }
                assert forall|k: int| 0 <= k < r.len() implies {
                    &&& Self::step(self@, #[trigger] r[k].2) == Some(r[k].0@)
                    &&& r[k].1 as int == Self::step_cost(self@, r[k].2)
                    &&& r[k].1 >= 0
                } by {
                    if k < before.len() {
                        assert(r[k] == before[k]);
                    }
                }
            }
            i += 1;
        }
        assert forall|e: Arc| #[trigger] Self::step(self@, e) is Some implies exists|k: int| 0 <= k < r.len() && r[k].2 == e by {
            let j = choose|j: int| 0 <= j < self.arcs@.len() && self.arcs@[j] == e;
        }
        r
    }

    fn try_edge(&self, edge: &Arc) -> (r: Option<GraphState>) {
        if edge.from == self.at && edge.cost >= 0 && contains_arc(&self.arcs, *edge) {
            Some(GraphState { at: edge.to, arcs: copy_arcs(&self.arcs), goals: copy_nodes(&self.goals) })
        } else {
            None
        }
    }

    fn is_solved(&self) -> (r: bool) {
        contains_node(&self.goals, self.at)
    }

    fn same_state(&self, other: &GraphState) -> (r: bool) {
        self.at == other.at && same_arcs(&self.arcs, &other.arcs) && same_nodes(&self.goals, &other.goals)
    }

    fn duplicate(&self) -> (r: GraphState) {
        GraphState { at: self.at, arcs: copy_arcs(&self.arcs), goals: copy_nodes(&self.goals) }
    }
}

/// From any position, finitely many positions can be reached: they differ only in the node.
pub proof fn lemma_graph_reachable_finite(v: (u32, Seq<Arc>, Seq<u32>))
    ensures
        reachable::<GraphState>(v).finite(),
{
    broadcast use vstd::set_lib::full_set_properties;

    let nodes = Set::<u32>::full();
    let all = nodes.map(|n: u32| (n, v.1, v.2));
    nodes.lemma_map_finite(|n: u32| (n, v.1, v.2));
    assert forall|w| #[trigger] reachable::<GraphState>(v).contains(w) implies all.contains(w) by {
        let p = choose|p: Seq<Arc>| replay::<GraphState>(v, p) == Some(w);
        lemma_replay_keeps_graph(v, p);
        assert(nodes.contains(w.0));
    }
    vstd::set_lib::lemma_set_subset_finite(all, reachable::<GraphState>(v));
}

proof fn lemma_replay_keeps_graph(v: (u32, Seq<Arc>, Seq<u32>), p: Seq<Arc>)
    requires
        replay::<GraphState>(v, p) is Some,
    ensures
        (replay::<GraphState>(v, p)->0).1 == v.1,
        (replay::<GraphState>(v, p)->0).2 == v.2,
    decreases p.len(),
{
    if p.len() > 0 {
        lemma_replay_keeps_graph(v, p.drop_last());
    }
}

} // verus!
