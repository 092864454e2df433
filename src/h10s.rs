//! Heuristics for the ball-sorting puzzle: estimates of the number of moves left.
use vstd::prelude::*;
use crate::astar::{Score, SolveStats, reachable, reaches_goal, replay, solve};
use crate::game::{
    Action, Ball, Game, GameView, Tube, TubeView, boards_of, lemma_reachable_finite, lemma_replay_keeps_shape,
    move_ball, one_if, well_shaped,
};

verus! {

/// The most tubes a board may have for its score to fit a `Score`: each tube adds at most four.
pub const MAX_SCORED_TUBES: usize = 536870911;

/// The sum of `f` over the tubes of `v`.
pub open spec fn total(v: GameView, f: spec_fn(TubeView) -> int) -> int
    decreases v.len(),
{
    if v.len() == 0 {
        0
    } else {
        total(v.drop_last(), f) + f(v.last())
    }
}

/// The bottom ball of tube `i` has the colour of the bottom ball of an earlier tube.
pub open spec fn root_repeated(v: GameView, i: int) -> bool {
    v[i][0] is Some && exists|j: int| 0 <= j < i && v[j][0] == v[i][0]
}

/// The sum of `f` over the tubes of `v`, plus one for each tube whose bottom ball repeats the
/// colour of an earlier tube's bottom ball.
pub open spec fn total_with_roots(v: GameView, f: spec_fn(TubeView) -> int) -> int
    decreases v.len(),
{
    if v.len() == 0 {
        0
    } else {
        total_with_roots(v.drop_last(), f) + f(v.last()) + one_if(root_repeated(v, v.len() - 1))
    }
}

/// One for two neighbouring places whose upper one holds a ball that differs from the lower one.
pub open spec fn pair_cost(lower: Option<Ball>, upper: Option<Ball>) -> int {
    if upper is None || lower == upper {
        0
    } else {
        1
    }
}

/// The number of neighbouring places of a tube whose upper ball differs from the lower one.
pub open spec fn consecutive_cost(t: TubeView) -> int {
    pair_cost(t[0], t[1]) + pair_cost(t[1], t[2]) + pair_cost(t[2], t[3])
}

/// Going up from place `i` of `t`, where `floor` is what the balls must match to stay, the
/// number of balls that do not match: after the first mismatch nothing matches. Counting stops
/// at the first empty place.
pub open spec fn clutter_from(t: TubeView, i: int, floor: Option<Ball>) -> int
    decreases 4 - i,
{
    if i >= 4 || i < 0 {
        0
    } else if t[i] is None {
        0
    } else if t[i] != floor {
        1 + clutter_from(t, i + 1, None)
    } else {
        clutter_from(t, i + 1, floor)
    }
}

/// The number of balls of a tube that are not joined to its bottom by a run of one colour.
pub open spec fn clutter_cost(t: TubeView) -> int {
    clutter_from(t, 1, t[0])
}

/// One step of the count of balls above a break in the run of one colour from the bottom:
/// a ball above a break, or above a ball of another colour, counts and breaks the run; an
/// empty place, or a ball that continues the run, mends it.
pub open spec fn dig_step(acc: (int, bool), lower: Option<Ball>, upper: Option<Ball>) -> (int, bool) {
    if upper is Some && (acc.1 || lower != upper) {
        (acc.0 + 1, true)
    } else {
        (acc.0, false)
    }
}

/// The count of `dig_step` over the three neighbouring pairs of a tube, bottom first.
pub open spec fn dig_cost(t: TubeView) -> int {
    dig_step(dig_step(dig_step((0, false), t[0], t[1]), t[1], t[2]), t[2], t[3]).0
}

/// The score of `ignoramus`.
pub open spec fn score_zero(v: GameView) -> int {
    0
}

/// The score of `consecutive_enjoyer`.
pub open spec fn score_consecutive(v: GameView) -> int {
    total(v, |t: TubeView| consecutive_cost(t))
}

/// The score of `count_clutter`.
pub open spec fn score_clutter(v: GameView) -> int {
    total(v, |t: TubeView| clutter_cost(t))
}

/// The score of `diggly` and `compressed_diggly`.
pub open spec fn score_diggly(v: GameView) -> int {
    total_with_roots(v, |t: TubeView| consecutive_cost(t))
}

/// The score of `dig_clutter` and `compressed_dig_clutter`.
pub open spec fn score_dig_clutter(v: GameView) -> int {
    total_with_roots(v, |t: TubeView| dig_cost(t))
}

/// Every bottom ball's colour is less than the number of tubes, as after `Game::compress` on a
/// valid board.
pub open spec fn roots_compressed(v: GameView) -> bool {
    forall|i: int| 0 <= i < v.len() && (#[trigger] v[i])[0] is Some ==> (v[i][0]->0.color as int) < v.len()
}

proof fn lemma_total_step(v: GameView, f: spec_fn(TubeView) -> int, i: int)
    requires
        0 <= i < v.len(),
    ensures
        total(v.subrange(0, i + 1), f) == total(v.subrange(0, i), f) + f(v[i]),
        total_with_roots(v.subrange(0, i + 1), f) == total_with_roots(v.subrange(0, i), f) + f(v[i])
            + one_if(root_repeated(v, i)),
{
    let w = v.subrange(0, i + 1);
    assert(w.drop_last() =~= v.subrange(0, i));
    assert(w.last() == v[i]);
    assert(root_repeated(w, i) == root_repeated(v, i)) by {
        if root_repeated(v, i) {
            let j = choose|j: int| 0 <= j < i && v[j][0] == v[i][0];
            assert(w[j] == v[j]);
        }
    }
}

proof fn lemma_total_bound(v: GameView, f: spec_fn(TubeView) -> int, i: int)
    requires
        0 <= i <= v.len(),
        forall|t: TubeView| 0 <= #[trigger] f(t) <= 3,
    ensures
        0 <= total(v.subrange(0, i), f) <= 3 * i,
        0 <= total_with_roots(v.subrange(0, i), f) <= 4 * i,
    decreases i,
{
    if i > 0 {
        lemma_total_bound(v, f, i - 1);
        lemma_total_step(v, f, i - 1);
    }
}

fn pair_score(lower: Option<Ball>, upper: Option<Ball>) -> (r: Score)
    ensures
        r == pair_cost(lower, upper),
{
    match (lower, upper) {
        (_, None) => 0,
        (None, Some(_)) => 1,
        (Some(a), Some(b)) => if a.color == b.color {
            0
        } else {
            1
        },
    }
}

fn consecutive_score(t: &Tube) -> (r: Score)
    ensures
        r == consecutive_cost(t@),
{
    pair_score(t.balls[0], t.balls[1]) + pair_score(t.balls[1], t.balls[2]) + pair_score(t.balls[2], t.balls[3])
}

fn same_ball(a: Option<Ball>, b: Option<Ball>) -> (r: bool)
    ensures
        r == (a == b),
{
    match (a, b) {
        (None, None) => true,
        (Some(x), Some(y)) => x.color == y.color,
        _ => false,
    }
}

fn clutter_score(t: &Tube) -> (r: Score)
    ensures
        r == clutter_cost(t@),
        0 <= r <= 3,
{
    let mut cost: Score = 0;
    let mut floor = t.balls[0];
    let mut i: usize = 1;
    let mut stopped = false;
    proof {
        lemma_clutter_bound(t@, 1, floor);
    }
    while i < 4 && !stopped
        invariant
            1 <= i <= 4,
            0 <= cost < i,
            stopped ==> clutter_from(t@, i as int, floor) == 0,
            cost + clutter_from(t@, i as int, floor) == clutter_cost(t@),
            0 <= clutter_from(t@, i as int, floor) <= 4 - i,
        decreases 4 - i + (if stopped { 0int } else { 1 }),
    {
        let ball = t.balls[i];
        assert(t@[i as int] == ball);
        if ball.is_none() {
            stopped = true;
        } else {
            if !same_ball(ball, floor) {
                cost += 1;
                floor = None;
            }
            i += 1;
        }
        proof {
            assert(0 <= clutter_from(t@, i as int, floor) <= 4 - i) by {
                lemma_clutter_bound(t@, i as int, floor);
            }
        }
    }
    cost
}

proof fn lemma_clutter_bound(t: TubeView, i: int, floor: Option<Ball>)
    requires
        0 <= i <= 4,
    ensures
        0 <= clutter_from(t, i, floor) <= 4 - i,
    decreases 4 - i,
{
    if i < 4 {
        lemma_clutter_bound(t, i + 1, floor);
        lemma_clutter_bound(t, i + 1, None);
    }
}

fn dig_score(t: &Tube) -> (r: Score)
    ensures
        r == dig_cost(t@),
        0 <= r <= 3,
{
    let mut cost: Score = 0;
    let mut broken = false;
    let mut i: usize = 0;
    while i < 3
        invariant
            0 <= i <= 3,
            0 <= cost <= i,
            i == 0 ==> cost == 0 && !broken,
            i == 1 ==> (cost as int, broken) == dig_step((0, false), t@[0], t@[1]),
            i == 2 ==> (cost as int, broken) == dig_step(dig_step((0, false), t@[0], t@[1]), t@[1], t@[2]),
            i == 3 ==> (cost as int, broken) == dig_step(
                dig_step(dig_step((0, false), t@[0], t@[1]), t@[1], t@[2]),
                t@[2],
                t@[3],
            ),
        decreases 3 - i,
    {
        let lower = t.balls[i];
        let upper = t.balls[i + 1];
        if upper.is_some() && (broken || !same_ball(lower, upper)) {
            cost += 1;
            broken = true;
        } else {
            broken = false;
        }
        i += 1;
    }
    cost
}

/// Scores every board zero: A* guided by it is a lowest-cost-first search.
pub fn ignoramus(_game: &Game) -> (r: Score)
    ensures
        r == score_zero(_game@),
{
    0
}

/// The number of neighbouring places, over all tubes, whose upper ball differs from the one
/// below it.
pub fn consecutive_enjoyer(game: &Game) -> (r: Score)
    requires
        game.tubes.len() <= MAX_SCORED_TUBES,
    ensures
        r == score_consecutive(game@),
{
    let ghost v = game@;
    let ghost f = |t: TubeView| consecutive_cost(t);
    let mut r: Score = 0;
    let mut i: usize = 0;
    while i < game.tubes.len()
        invariant
            i <= game.tubes.len() <= MAX_SCORED_TUBES,
            v == game@,
            f == (|t: TubeView| consecutive_cost(t)),
            r == total(v.subrange(0, i as int), f),
        decreases game.tubes.len() - i,
    {
        proof {
            lemma_total_step(v, f, i as int);
            lemma_total_bound(v, f, i as int);
            assert(v[i as int] == game.tubes[i as int]@);
        }
        r = r + consecutive_score(&game.tubes[i]);
        i += 1;
    }
    proof {
        assert(v.subrange(0, v.len() as int) =~= v);
    }
    r
}

/// The number of balls, over all tubes, that are not joined to the bottom of their tube by a
/// run of one colour.
pub fn count_clutter(game: &Game) -> (r: Score)
    requires
        game.tubes.len() <= MAX_SCORED_TUBES,
    ensures
        r == score_clutter(game@),
{
    let ghost v = game@;
    let ghost f = |t: TubeView| clutter_cost(t);
    let mut cost: Score = 0;
    let mut i: usize = 0;
    while i < game.tubes.len()
        invariant
            i <= game.tubes.len() <= MAX_SCORED_TUBES,
            v == game@,
            f == (|t: TubeView| clutter_cost(t)),
            cost == total(v.subrange(0, i as int), f),
        decreases game.tubes.len() - i,
    {
        proof {
            lemma_total_step(v, f, i as int);
            assert forall|t: TubeView| 0 <= #[trigger] f(t) <= 3 by {
                lemma_clutter_bound(t, 1, t[0]);
            }
            lemma_total_bound(v, f, i as int);
            assert(v[i as int] == game.tubes[i as int]@);
        }
        cost = cost + clutter_score(&game.tubes[i]);
        i += 1;
    }
    proof {
        assert(v.subrange(0, v.len() as int) =~= v);
    }
    cost
}

/// Whether the bottom ball of tube `i` repeats the colour of an earlier tube's bottom ball.
fn root_repeats(game: &Game, i: usize) -> (r: bool)
    requires
        i < game.tubes.len(),
    ensures
        r == root_repeated(game@, i as int),
{
    let ghost v = game@;
    let root = game.tubes[i].balls[0];
    assert(v[i as int][0] == root);
    if root.is_none() {
        return false;
    }
    let mut j: usize = 0;
    while j < i
        invariant
            j <= i < game.tubes.len(),
            v == game@,
            v[i as int][0] == root,
            root is Some,
            forall|k: int| 0 <= k < j ==> v[k][0] != root,
        decreases i - j,
    {
        assert(v[j as int][0] == game.tubes[j as int].balls[0]);
        if same_ball(game.tubes[j].balls[0], root) {
            assert(v[j as int][0] == v[i as int][0]);
            return true;
        }
        j += 1;
    }
    false
}

/// The score of a tube, by `consecutive_cost` or by `dig_cost`.
fn tube_score(t: &Tube, dig: bool) -> (r: Score)
    ensures
        dig ==> r == dig_cost(t@),
        !dig ==> r == consecutive_cost(t@),
        0 <= r <= 3,
{
    if dig {
        dig_score(t)
    } else {
        consecutive_score(t)
    }
}

/// The tube scores of `game` plus one for each repeated bottom colour, where repeats are found
/// by searching the earlier tubes.
fn rooted_score(game: &Game, dig: bool) -> (r: Score)
    requires
        game.tubes.len() <= MAX_SCORED_TUBES,
    ensures
        dig ==> r == score_dig_clutter(game@),
        !dig ==> r == score_diggly(game@),
{
    let ghost v = game@;
    let ghost f = if dig {
        |t: TubeView| dig_cost(t)
    } else {
        |t: TubeView| consecutive_cost(t)
    };
    let mut r: Score = 0;
    let mut i: usize = 0;
    proof {
        assert forall|t: TubeView| 0 <= #[trigger] f(t) <= 3 by {}
    }
    while i < game.tubes.len()
        invariant
            i <= game.tubes.len() <= MAX_SCORED_TUBES,
            v == game@,
            f == (if dig {
                |t: TubeView| dig_cost(t)
            } else {
                |t: TubeView| consecutive_cost(t)
            }),
            forall|t: TubeView| 0 <= #[trigger] f(t) <= 3,
            r == total_with_roots(v.subrange(0, i as int), f),
        decreases game.tubes.len() - i,
    {
        proof {
            lemma_total_step(v, f, i as int);
            lemma_total_bound(v, f, i as int);
            assert(v[i as int] == game.tubes[i as int]@);
        }
        let t = tube_score(&game.tubes[i], dig);
        let extra: Score = if root_repeats(game, i) {
            1
        } else {
            0
        };
        r = r + t + extra;
        i += 1;
    }
    proof {
        assert(v.subrange(0, v.len() as int) =~= v);
    }
    r
}

/// The same as `rooted_score`, where repeats are found with a table indexed by colour.
fn rooted_score_compressed(game: &Game, dig: bool) -> (r: Score)
    requires
        game.tubes.len() <= MAX_SCORED_TUBES,
        roots_compressed(game@),
    ensures
        dig ==> r == score_dig_clutter(game@),
        !dig ==> r == score_diggly(game@),
{
    let ghost v = game@;
    let ghost f = if dig {
        |t: TubeView| dig_cost(t)
    } else {
        |t: TubeView| consecutive_cost(t)
    };
    let n = game.tubes.len();
    let mut seen: Vec<bool> = Vec::new();
    let mut k: usize = 0;
    while k < n
        invariant
            k <= n,
            seen.len() == k,
            forall|c: int| 0 <= c < k ==> !seen[c],
        decreases n - k,
    {
        seen.push(false);
        k += 1;
    }
    let mut r: Score = 0;
    let mut i: usize = 0;
    proof {
        assert forall|t: TubeView| 0 <= #[trigger] f(t) <= 3 by {}
    }
    while i < n
        invariant
            i <= n == game.tubes.len() <= MAX_SCORED_TUBES,
            v == game@,
            roots_compressed(v),
            f == (if dig {
                |t: TubeView| dig_cost(t)
            } else {
                |t: TubeView| consecutive_cost(t)
            }),
            forall|t: TubeView| 0 <= #[trigger] f(t) <= 3,
            r == total_with_roots(v.subrange(0, i as int), f),
            seen.len() == n,
            forall|c: int|
                0 <= c < n ==> (#[trigger] seen[c] <==> c < 256 && exists|j: int|
                    0 <= j < i && v[j][0] == Some(Ball { color: c as u8 })),
        decreases n - i,
    {
        proof {
            lemma_total_step(v, f, i as int);
            lemma_total_bound(v, f, i as int);
            assert(v[i as int] == game.tubes[i as int]@);
        }
        let t = tube_score(&game.tubes[i], dig);
        let mut extra: Score = 0;
        let ghost old_seen = seen@;
        match game.tubes[i].balls[0] {
            Some(ball) => {
                let c = ball.color as usize;
                assert(v[i as int][0] == Some(ball));
                if seen[c] {
                    extra = 1;
                } else {
                    seen.set(c, true);
                }
                proof {
                    assert(Ball { color: c as u8 } == ball);
                    if root_repeated(v, i as int) {
                        let j = choose|j: int| 0 <= j < i && v[j][0] == v[i as int][0];
                        assert(old_seen[c as int]);
                    }
                    assert forall|d: int|
                        0 <= d < n implies (#[trigger] seen[d] <==> d < 256 && exists|j: int|
                            0 <= j < i + 1 && v[j][0] == Some(Ball { color: d as u8 })) by {
                        if d != c {
                            if d < 256 && exists|j: int| 0 <= j < i + 1 && v[j][0] == Some(Ball { color: d as u8 }) {
                                let j = choose|j: int| 0 <= j < i + 1 && v[j][0] == Some(Ball { color: d as u8 });
                                if j == i {
                                    assert(d as u8 == c as u8);
                                }
                            }
                        } else {
                            assert(v[i as int][0] == Some(Ball { color: d as u8 }));
                        }
                    }
                }
            },
            None => {
                proof {
                    assert forall|d: int|
                        0 <= d < n implies (#[trigger] seen[d] <==> d < 256 && exists|j: int|
                            0 <= j < i + 1 && v[j][0] == Some(Ball { color: d as u8 })) by {
                        if d < 256 && exists|j: int| 0 <= j < i + 1 && v[j][0] == Some(Ball { color: d as u8 }) {
                            let j = choose|j: int| 0 <= j < i + 1 && v[j][0] == Some(Ball { color: d as u8 });
                            assert(j != i);
                        }
                    }
                }
            },
        }
        r = r + t + extra;
        i += 1;
    }
    proof {
        assert(v.subrange(0, v.len() as int) =~= v);
    }
    r
}

/// `consecutive_enjoyer`, plus one for each tube whose bottom ball has the colour of an earlier
/// tube's bottom ball.
pub fn diggly(game: &Game) -> (r: Score)
    requires
        game.tubes.len() <= MAX_SCORED_TUBES,
    ensures
        r == score_diggly(game@),
{
    rooted_score(game, false)
}

/// `diggly` for a board whose colours are compressed: it keeps a table indexed by colour.
pub fn compressed_diggly(game: &Game) -> (r: Score)
    requires
        game.tubes.len() <= MAX_SCORED_TUBES,
        roots_compressed(game@),
    ensures
        r == score_diggly(game@),
{
    rooted_score_compressed(game, false)
}

/// The number of balls not joined to their tube's bottom by a run of one colour, counted by
/// `dig_cost`, plus one for each tube whose bottom ball has the colour of an earlier tube's
/// bottom ball.
pub fn dig_clutter(game: &Game) -> (r: Score)
    requires
        game.tubes.len() <= MAX_SCORED_TUBES,
    ensures
        r == score_dig_clutter(game@),
{
    rooted_score(game, true)
}

/// `dig_clutter` for a board whose colours are compressed: it keeps a table indexed by colour.
pub fn compressed_dig_clutter(game: &Game) -> (r: Score)
    requires
        game.tubes.len() <= MAX_SCORED_TUBES,
        roots_compressed(game@),
    ensures
        r == score_dig_clutter(game@),
{
    rooted_score_compressed(game, true)
}

/// An empty tube.
pub open spec fn empty_tube() -> TubeView {
    seq![None::<Ball>, None, None, None]
}

/// `v` with three empty tubes added at the end.
pub open spec fn relaxed(v: GameView) -> GameView {
    v + seq![empty_tube(), empty_tube(), empty_tube()]
}

/// The length of a path that solves the board with three more empty tubes, found by A* guided
/// by `diggly` (capped at the largest `Score`), or zero when that board cannot be solved.
pub fn relaxed_bucket_solve(game: &Game) -> (r: Score)
    requires
        game.tubes.len() + 3 <= MAX_SCORED_TUBES,
    ensures
        (forall|p: Seq<Action>| !#[trigger] reaches_goal::<Game>(relaxed(game@), p)) ==> r == 0,
        (exists|p: Seq<Action>| #[trigger] reaches_goal::<Game>(relaxed(game@), p)) ==> exists|p: Seq<Action>|
            #[trigger] reaches_goal::<Game>(relaxed(game@), p) && r == (if p.len() <= i32::MAX {
                p.len() as int
            } else {
                i32::MAX as int
            }),
{
    let mut relaxed_game = game.duplicate();
    relaxed_game.tubes.push(Tube::empty());
    relaxed_game.tubes.push(Tube::empty());
    relaxed_game.tubes.push(Tube::empty());
    proof {
        assert(relaxed_game@ =~= relaxed(game@));
        assert(well_shaped(relaxed_game@));
        lemma_reachable_finite(relaxed_game@);
    }
    match solve(relaxed_game, diggly) {
        Some((path, _stats)) => {
            proof {
                assert(reaches_goal::<Game>(relaxed(game@), path@));
            }
            if path.len() <= i32::MAX as usize {
                path.len() as Score
            } else {
                i32::MAX
            }
        },
        None => 0,
    }
}

/// Every ball's colour is less than `n`.
pub open spec fn colors_below(v: GameView, n: int) -> bool {
    forall|i: int, j: int|
        0 <= i < v.len() && 0 <= j < v[i].len() && (#[trigger] v[i][j]) is Some ==> (v[i][j]->0.color as int) < n
}

/// Moves keep every colour below a bound.
pub proof fn lemma_replay_keeps_colors(v: GameView, p: Seq<Action>, n: int)
    requires
        well_shaped(v),
        colors_below(v, n),
        replay::<Game>(v, p) is Some,
    ensures
        colors_below(replay::<Game>(v, p)->0, n),
    decreases p.len(),
{
    if p.len() > 0 {
        lemma_replay_keeps_colors(v, p.drop_last(), n);
        lemma_replay_keeps_shape(v, p.drop_last());
        let u = replay::<Game>(v, p.drop_last())->0;
        let w = replay::<Game>(v, p)->0;
        let a = p.last();
        assert(move_ball(u, a.from as int, a.to as int) == Some(w));
        assert forall|i: int, j: int|
            0 <= i < w.len() && 0 <= j < w[i].len() && (#[trigger] w[i][j]) is Some implies (w[i][j]->0.color as int) < n by {
            let to_idx = crate::game::filled(u[a.to as int]);
            let from_idx = crate::game::filled(u[a.from as int]) - 1;
            assert(u[a.to as int].len() == 4 && u[a.from as int].len() == 4);
            if i == a.to && j == to_idx {
                assert(w[i][j] == u[a.from as int][from_idx]);
            } else if i == a.from && j == from_idx {
            } else if i == a.to || i == a.from {
                assert(w[i][j] == u[i][j]);
            } else {
                assert(w[i] == u[i]);
            }
        }
    }
}

/// Whether every ball's colour is less than the number of tubes, as `compressed_diggly` and
/// `compressed_dig_clutter` need of every board reachable from this one.
pub fn colors_fit(game: &Game) -> (r: bool)
    ensures
        r == colors_below(game@, game.tubes.len() as int),
{
    let ghost v = game@;
    let n = game.tubes.len();
    let mut i: usize = 0;
    while i < n
        invariant
            i <= n == game.tubes.len(),
            v == game@,
            v.len() == n,
            forall|k: int| 0 <= k < n ==> #[trigger] v[k] == game.tubes[k]@,
            forall|k: int, j: int|
                0 <= k < i && 0 <= j < v[k].len() && (#[trigger] v[k][j]) is Some ==> (v[k][j]->0.color as int) < n,
        decreases n - i,
    {
        let mut j: usize = 0;
        while j < 4
            invariant
                j <= 4,
                i < n == game.tubes.len(),
                v == game@,
                v.len() == n,
                forall|k: int| 0 <= k < n ==> #[trigger] v[k] == game.tubes[k]@,
                forall|k: int, m: int|
                    0 <= k < i && 0 <= m < v[k].len() && (#[trigger] v[k][m]) is Some ==> (v[k][m]->0.color as int) < n,
                forall|m: int| 0 <= m < j && (#[trigger] v[i as int][m]) is Some ==> (v[i as int][m]->0.color as int) < n,
            decreases 4 - j,
        {
            let b = game.tubes[i].balls[j];
            assert(v[i as int][j as int] == b);
            if let Some(ball) = b {
                if ball.color as usize >= n {
                    return false;
                }
            }
            j += 1;
        }
        i += 1;
    }
    true
}

/// A* search on a board whose colours fit (see `colors_fit`), guided by `compressed_dig_clutter`.
pub fn solve_compressed(game: Game) -> (r: Option<(Vec<Action>, SolveStats)>)
    requires
        game.tubes.len() <= MAX_SCORED_TUBES,
        colors_below(game@, game.tubes.len() as int),
    ensures
        r is Some ==> reaches_goal::<Game>(game@, (r->0).0@),
        r is None <==> forall|p: Seq<Action>| !#[trigger] reaches_goal::<Game>(game@, p),
{
    let ghost v = game@;
    proof {
        assert(well_shaped(v));
        lemma_reachable_finite(v);
        assert forall|s: Game| #[trigger] reachable::<Game>(v).contains(s@) implies s.tubes.len() <= MAX_SCORED_TUBES
            && roots_compressed(s@) by {
            let p = choose|p: Seq<Action>| replay::<Game>(v, p) == Some(s@);
            lemma_replay_keeps_shape(v, p);
            lemma_replay_keeps_colors(v, p, v.len() as int);
            assert forall|i: int| 0 <= i < s@.len() && (#[trigger] s@[i])[0] is Some implies (s@[i][0]->0.color as int)
                < s@.len() by {
                assert(s@[i][0] == s@[i][0]);
            }
        }
    }
    solve(game, compressed_dig_clutter)
}

} // verus!
