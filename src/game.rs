//! The ball-sorting puzzle: tubes of up to four coloured balls, moves of the top ball of one
//! tube onto another, and the rules that a board must follow.
use vstd::prelude::*;
use crate::astar::{Score, State, reachable, replay};
use crate::text::{chars_to_string, decimal, digit_char, push_decimal};

verus! {

/// A ball, identified by its colour: in a board read from text, a printable ASCII character;
/// never zero.
#[derive(Clone, Copy, Debug, PartialEq, Eq, Hash)]
pub struct Ball {
    pub color: u8,
}

/// A tube with room for four balls; index 0 is the bottom.
#[derive(Clone, Copy, Debug, PartialEq, Eq, Hash)]
pub struct Tube {
    pub balls: [Option<Ball>; 4],
}

/// A board: a row of tubes.
#[derive(Clone, Debug, PartialEq, Eq, Hash)]
pub struct Game {
    pub tubes: Vec<Tube>,
}

/// A move of the top ball of tube `from` onto tube `to`.
#[derive(Clone, Copy, Debug, PartialEq, Eq, Hash)]
pub struct Action {
    pub from: u8,
    pub to: u8,
}

/// Why a board breaks the rules.
#[derive(Clone, Copy, Debug, PartialEq, Eq, Hash)]
pub enum ValidationError {
    /// Fewer than 3 tubes.
    NotEnoughTubes,
    /// More than 13 tubes.
    TooManyTubes,
    /// A ball has an empty place below it.
    SpaceBalls,
    /// A colour has fewer than 4 balls.
    NotEnoughBallsOfColor,
    /// A colour has more than 4 balls.
    TooManyBallsOfColor,
    /// There are fewer than 4 empty places, or none.
    NotEnoughEmpties,
    /// There are more than 12 empty places.
    TooManyEmpties,
}

/// The contents of one tube, bottom first.
pub type TubeView = Seq<Option<Ball>>;

/// The contents of a board, tube by tube.
pub type GameView = Seq<TubeView>;

impl View for Tube {
    type V = TubeView;

    open spec fn view(&self) -> TubeView {
        self.balls@
    }
}

impl View for Game {
    type V = GameView;

    open spec fn view(&self) -> GameView {
        self.tubes@.map_values(|t: Tube| t@)
    }
}

/// One when `b` holds, else zero.
pub open spec fn one_if(b: bool) -> int {
    if b {
        1
    } else {
        0
    }
}

/// The number of balls in a tube.
pub open spec fn filled(t: TubeView) -> int {
    one_if(t[0] is Some) + one_if(t[1] is Some) + one_if(t[2] is Some) + one_if(t[3] is Some)
}

/// All four places of the tube hold the same thing: four balls of one colour, or nothing.
pub open spec fn tube_solved(t: TubeView) -> bool {
    t[0] == t[1] && t[1] == t[2] && t[2] == t[3]
}

/// No ball of the tube has an empty place below it.
pub open spec fn tube_upright(t: TubeView) -> bool {
    &&& (t[0] is Some || t[1] is None)
    &&& (t[1] is Some || t[2] is None)
    &&& (t[2] is Some || t[3] is None)
}

/// Every tube of the board is solved.
pub open spec fn game_solved(v: GameView) -> bool {
    forall|i: int| 0 <= i < v.len() ==> tube_solved(#[trigger] v[i])
}

/// The board after moving the top ball of tube `from` onto tube `to`, when that move is legal:
/// both tubes exist and differ, `to` has room and `from` has a ball. The ball lands in the
/// place of `to` whose index is the number of balls in `to`, and leaves the place of `from`
/// whose index is one less than the number of balls in `from`.
pub open spec fn move_ball(v: GameView, from: int, to: int) -> Option<GameView> {
    if 0 <= from < v.len() && 0 <= to < v.len() && from != to && v[to][3] is None && v[from][0] is Some {
        let to_idx = filled(v[to]);
        let from_idx = filled(v[from]) - 1;
        Some(v.update(to, v[to].update(to_idx, v[from][from_idx])).update(from, v[from].update(from_idx, None)))
    } else {
        None
    }
}

/// Whether `a` is a legal move on `v`.
pub open spec fn legal(v: GameView, a: Action) -> bool {
    move_ball(v, a.from as int, a.to as int) is Some
}

/// Every tube view of the board has four places.
pub open spec fn well_shaped(v: GameView) -> bool {
    forall|i: int| 0 <= i < v.len() ==> (#[trigger] v[i]).len() == 4
}

proof fn lemma_game_view_shape(g: &Game)
    ensures
        well_shaped(g@),
        g@.len() == g.tubes.len(),
        forall|i: int| 0 <= i < g.tubes.len() ==> #[trigger] g@[i] == g.tubes[i]@,
{
}

fn same_slot(a: Option<Ball>, b: Option<Ball>) -> (r: bool)
    ensures
        r == (a == b),
{
    match (a, b) {
        (None, None) => true,
        (Some(x), Some(y)) => x.color == y.color,
        _ => false,
    }
}

impl Tube {
    /// A tube with no balls.
    pub fn empty() -> (r: Tube)
        ensures
            r@ == seq![None::<Ball>, None, None, None],
    {
        let r = Tube { balls: [None, None, None, None] };
        assert(r@ =~= seq![None::<Ball>, None, None, None]);
        r
    }

    /// Whether the tube holds four balls of one colour, or none.
    pub fn is_solved(&self) -> (r: bool)
        ensures
            r == tube_solved(self@),
    {
        same_slot(self.balls[0], self.balls[1]) && same_slot(self.balls[1], self.balls[2]) && same_slot(
            self.balls[2],
            self.balls[3],
        )
    }

    /// Whether no ball of the tube has an empty place below it.
    pub fn is_valid(&self) -> (r: bool)
        ensures
            r == tube_upright(self@),
    {
        (self.balls[0].is_some() || self.balls[1].is_none()) && (self.balls[1].is_some()
            || self.balls[2].is_none()) && (self.balls[2].is_some() || self.balls[3].is_none())
    }

    /// The number of balls in the tube.
    pub fn last(&self) -> (r: usize)
        ensures
            r == filled(self@),
    {
        let mut r: usize = 0;
        if self.balls[0].is_some() {
            r += 1;
        }
        if self.balls[1].is_some() {
            r += 1;
        }
        if self.balls[2].is_some() {
            r += 1;
        }
        if self.balls[3].is_some() {
            r += 1;
        }
        r
    }
}

/// `t` with place `i` set to `b`.
fn tube_with(t: Tube, i: usize, b: Option<Ball>) -> (r: Tube)
    requires
        i < 4,
    ensures
        r@ == t@.update(i as int, b),
{
    let mut balls = t.balls;
    balls[i] = b;
    let r = Tube { balls };
    assert(r@ =~= t@.update(i as int, b));
    r
}

impl Game {
    /// A copy of the board.
    pub fn duplicate(&self) -> (r: Game)
        ensures
            r@ == self@,
            r.tubes@ == self.tubes@,
    {
        let mut tubes: Vec<Tube> = Vec::new();
        let mut i: usize = 0;
        while i < self.tubes.len()
            invariant
                i <= self.tubes.len(),
                tubes@ == self.tubes@.subrange(0, i as int),
            decreases self.tubes.len() - i,
        {
            tubes.push(self.tubes[i]);
            i += 1;
            assert(tubes@ =~= self.tubes@.subrange(0, i as int));
        }
        assert(tubes@ =~= self.tubes@);
        Game { tubes }
    }

    /// Whether the two boards hold the same balls in the same places.
    pub fn same_board(&self, other: &Game) -> (r: bool)
        ensures
            r == (self@ == other@),
    {
        proof {
            lemma_game_view_shape(self);
            lemma_game_view_shape(other);
        }
        if self.tubes.len() != other.tubes.len() {
            return false;
        }
        let mut i: usize = 0;
        while i < self.tubes.len()
            invariant
                i <= self.tubes.len(),
                self.tubes.len() == other.tubes.len(),
                forall|j: int| 0 <= j < i ==> self@[j] == other@[j],
            decreases self.tubes.len() - i,
        {
            let a = &self.tubes[i];
            let b = &other.tubes[i];
            if !(same_slot(a.balls[0], b.balls[0]) && same_slot(a.balls[1], b.balls[1]) && same_slot(
                a.balls[2],
                b.balls[2],
            ) && same_slot(a.balls[3], b.balls[3])) {
                assert(self@[i as int][0] != other@[i as int][0] || self@[i as int][1] != other@[i as int][1]
                    || self@[i as int][2] != other@[i as int][2] || self@[i as int][3] != other@[i as int][3]);
                return false;
            }
            assert(self@[i as int] =~= other@[i as int]);
            i += 1;
        }
        assert(self@ =~= other@);
        true
    }

    /// The board after moving the top ball of tube `action.from` onto tube `action.to`, or
    /// `None` when the move is not legal.
    pub fn try_action(&self, action: Action) -> (r: Option<Game>)
        ensures
            r is Some <==> legal(self@, action),
            r is Some ==> move_ball(self@, action.from as int, action.to as int) == Some(r->0@),
    {
        let from = action.from as usize;
        let to = action.to as usize;
        let len = self.tubes.len();
        if from >= len || to >= len {
            return None;
        }
        if from == to {
            return None;
        }
        if self.tubes[to].balls[3].is_some() || self.tubes[from].balls[0].is_none() {
            return None;
        }
        let to_idx = self.tubes[to].last();
        let from_idx = self.tubes[from].last() - 1;
        let mut new_state = self.duplicate();
        let ball = new_state.tubes[from].balls[from_idx];
        let to_tube = tube_with(new_state.tubes[to], to_idx, ball);
        new_state.tubes.set(to, to_tube);
        let from_tube = tube_with(new_state.tubes[from], from_idx, None);
        new_state.tubes.set(from, from_tube);
        proof {
            let v = self@;
            let expected = move_ball(v, from as int, to as int)->0;
            assert(new_state@ =~= expected);
        }
        Some(new_state)
    }

    /// Whether every tube holds four balls of one colour, or none.
    pub fn is_solved(&self) -> (r: bool)
        ensures
            r == game_solved(self@),
    {
        proof {
            lemma_game_view_shape(self);
        }
        let mut i: usize = 0;
        while i < self.tubes.len()
            invariant
                i <= self.tubes.len(),
                forall|j: int| 0 <= j < i ==> tube_solved(#[trigger] self@[j]),
            decreases self.tubes.len() - i,
        {
            if !self.tubes[i].is_solved() {
                assert(!tube_solved(self@[i as int]));
                return false;
            }
            i += 1;
        }
        true
    }
}

/// A place as a number: 0 when empty, else one more than the ball's colour.
pub open spec fn slot_code(b: Option<Ball>) -> int {
    match b {
        Some(ball) => ball.color as int + 1,
        None => 0,
    }
}

/// One step of the board's hash: `h` times 257 plus `c`, modulo 2^64.
pub open spec fn mix(h: int, c: int) -> int {
    (h * 257 + c) % 0x1_0000_0000_0000_0000
}

/// `h` mixed with the places of `t`, bottom first.
pub open spec fn tube_key(h: int, t: TubeView) -> int {
    mix(mix(mix(mix(h, slot_code(t[0])), slot_code(t[1])), slot_code(t[2])), slot_code(t[3]))
}

/// A hash of the board's places, tube by tube.
pub open spec fn board_key(v: GameView) -> int
    decreases v.len(),
{
    if v.len() == 0 {
        0
    } else {
        tube_key(board_key(v.drop_last()), v.last())
    }
}

fn code_of(b: Option<Ball>) -> (r: u128)
    ensures
        r == slot_code(b),
{
    match b {
        Some(ball) => ball.color as u128 + 1,
        None => 0,
    }
}

fn mix_exec(h: u64, c: u128) -> (r: u64)
    requires
        c <= 256,
    ensures
        r == mix(h as int, c as int),
{
    (((h as u128) * 257 + c) % 0x1_0000_0000_0000_0000) as u64
}

impl Game {
    /// A hash of the board's places.
    pub fn board_hash(&self) -> (r: u64)
        ensures
            r == board_key(self@),
    {
        let ghost v = self@;
        proof {
            lemma_game_view_shape(self);
        }
        let mut h: u64 = 0;
        let mut i: usize = 0;
        while i < self.tubes.len()
            invariant
                i <= self.tubes.len(),
                v == self@,
                v.len() == self.tubes.len(),
                h == board_key(v.subrange(0, i as int)),
            decreases self.tubes.len() - i,
        {
            let t = &self.tubes[i];
            assert(v[i as int] == t@);
            h = mix_exec(h, code_of(t.balls[0]));
            h = mix_exec(h, code_of(t.balls[1]));
            h = mix_exec(h, code_of(t.balls[2]));
            h = mix_exec(h, code_of(t.balls[3]));
            proof {
                let w = v.subrange(0, i + 1);
                assert(w.drop_last() =~= v.subrange(0, i as int));
            }
            i += 1;
        }
        assert(v.subrange(0, v.len() as int) =~= v);
        h
    }
}

/// The number of tubes that a move can name: tube indices are bytes.
pub open spec fn width(v: GameView) -> int {
    if v.len() < 256 {
        v.len() as int
    } else {
        256
    }
}

/// `a` comes at or after position (`from`, `to`) in the order of moves: by source tube, then
/// by target tube.
pub open spec fn at_or_after(a: Action, from: int, to: int) -> bool {
    a.from > from || (a.from == from && a.to >= to)
}

/// No legal move of `v` comes at or after position (`f0`, `t0`) and before (`f1`, `t1`).
pub open spec fn none_legal_between(v: GameView, f0: int, t0: int, f1: int, t1: int) -> bool {
    forall|a: Action|
        at_or_after(a, f0, t0) && !at_or_after(a, f1, t1) ==> !#[trigger] legal(v, a)
}

/// The moves out of a board, in order of source tube, then of target tube.
pub struct GameSuccessors {
    state: Game,
    from: usize,
    to: usize,
}

impl GameSuccessors {
    /// The board whose moves are listed.
    pub closed spec fn board(&self) -> GameView {
        self.state@
    }

    /// The source tube of the next move to try.
    pub closed spec fn next_from(&self) -> int {
        self.from as int
    }

    /// The target tube of the next move to try.
    pub closed spec fn next_to(&self) -> int {
        self.to as int
    }

    /// Lists the moves of `state` from the first one.
    pub fn new(state: Game) -> (r: GameSuccessors)
        ensures
            r.board() == state@,
            r.next_from() == 0,
            r.next_to() == 0,
    {
        GameSuccessors { state, from: 0, to: 0 }
    }

    /// The next legal move at or after the current position, with the board it leads to and
    /// its cost (always one); `None` when there is none left.
    pub fn next(&mut self) -> (r: Option<(Game, Score, Action)>)
        requires
            old(self).next_to() <= 256,
        ensures
            final(self).board() == old(self).board(),
            final(self).next_to() <= 256,
            match r {
                Some((g, c, a)) => {
                    &&& legal(old(self).board(), a)
                    &&& move_ball(old(self).board(), a.from as int, a.to as int) == Some(g@)
                    &&& c == 1
                    &&& at_or_after(a, old(self).next_from(), old(self).next_to())
                    &&& none_legal_between(
                        old(self).board(),
                        old(self).next_from(),
                        old(self).next_to(),
                        a.from as int,
                        a.to as int,
                    )
                    &&& final(self).next_from() == a.from
                    &&& final(self).next_to() == a.to + 1
                },
                None => {
                    &&& forall|a: Action|
                        at_or_after(a, old(self).next_from(), old(self).next_to()) ==> !#[trigger] legal(
                            old(self).board(),
                            a,
                        )
                    &&& final(self).next_from() >= width(old(self).board())
                },
            },
    {
        let ghost v = self.state@;
        let ghost f0 = self.from as int;
        let ghost t0 = self.to as int;
        let n: usize = if self.state.tubes.len() < 256 {
            self.state.tubes.len()
        } else {
            256
        };
        proof {
            lemma_game_view_shape(&self.state);
        }
        let mut from = self.from;
        let mut to = self.to;
        while from < n
            invariant
                self.state@ == v,
                v == old(self).board(),
                f0 == old(self).next_from(),
                t0 == old(self).next_to(),
                n == width(v),
                to <= 256,
                from <= n || from == f0,
                f0 < from || (f0 == from && t0 <= to),
                none_legal_between(v, f0, t0, from as int, to as int),
            decreases n - from, 257 - to,
        {
            while to < n
                invariant
                    self.state@ == v,
                    v == old(self).board(),
                    f0 == old(self).next_from(),
                    t0 == old(self).next_to(),
                    n == width(v),
                    from < n,
                    to <= 256,
                    f0 < from || (f0 == from && t0 <= to),
                    none_legal_between(v, f0, t0, from as int, to as int),
                decreases n - to,
            {
                let action = Action { from: from as u8, to: to as u8 };
                match self.state.try_action(action) {
                    Some(new_state) => {
                        self.from = from;
                        self.to = to + 1;
                        return Some((new_state, 1, action));
                    },
                    None => {},
                }
                to += 1;
                assert(none_legal_between(v, f0, t0, from as int, to as int)) by {
                    assert forall|a: Action| at_or_after(a, f0, t0) && !at_or_after(a, from as int, to as int)
                        implies !#[trigger] legal(v, a) by {
                        if a.from == from && a.to == to - 1 {
                            assert(a == action);
                        }
                    }
                }
            }
            assert(none_legal_between(v, f0, t0, from + 1, 0));
            to = 0;
            from += 1;
        }
        self.from = from;
        self.to = to;
        assert(none_legal_between(v, f0, t0, n as int, 0));
        None
    }
}

impl Game {
    /// Every legal move, in order of source tube and then target tube, with the board it leads
    /// to and its cost (always one).
    pub fn successors(self) -> (r: Vec<(Game, Score, Action)>)
        ensures
            forall|i: int|
                0 <= i < r.len() ==> {
                    &&& move_ball(self@, r[i].2.from as int, r[i].2.to as int) == Some(#[trigger] r[i].0@)
                    &&& r[i].1 == 1
                },
            forall|a: Action| #[trigger] legal(self@, a) ==> exists|i: int| 0 <= i < r.len() && r[i].2 == a,
            forall|i: int, j: int|
                #![trigger r[i], r[j]]
                0 <= i < j < r.len() ==> !at_or_after(r[i].2, r[j].2.from as int, r[j].2.to as int),
    {
        let ghost v = self@;
        let mut moves = GameSuccessors::new(self);
        let mut r: Vec<(Game, Score, Action)> = Vec::new();
        loop
            invariant_except_break
                moves.board() == v,
                moves.next_to() <= 256,
                0 <= moves.next_from() <= 256,
                forall|i: int|
                    0 <= i < r.len() ==> {
                        &&& move_ball(v, r[i].2.from as int, r[i].2.to as int) == Some(#[trigger] r[i].0@)
                        &&& r[i].1 == 1
                    },
                forall|a: Action|
                    #[trigger] legal(v, a) && !at_or_after(a, moves.next_from(), moves.next_to()) ==> exists|i: int|
                        0 <= i < r.len() && r[i].2 == a,
                forall|i: int| 0 <= i < r.len() ==> !at_or_after(#[trigger] r[i].2, moves.next_from(), moves.next_to()),
                forall|i: int, j: int|
                    #![trigger r[i], r[j]]
                    0 <= i < j < r.len() ==> !at_or_after(r[i].2, r[j].2.from as int, r[j].2.to as int),
            ensures
                forall|i: int|
                    0 <= i < r.len() ==> {
                        &&& move_ball(v, r[i].2.from as int, r[i].2.to as int) == Some(#[trigger] r[i].0@)
                        &&& r[i].1 == 1
                    },
                forall|a: Action| #[trigger] legal(v, a) ==> exists|i: int| 0 <= i < r.len() && r[i].2 == a,
                forall|i: int, j: int|
                    #![trigger r[i], r[j]]
                    0 <= i < j < r.len() ==> !at_or_after(r[i].2, r[j].2.from as int, r[j].2.to as int),
            decreases 257 - moves.next_from(), 257 - moves.next_to(),
        {
            let ghost before = r@;
            let ghost pf = moves.next_from();
            let ghost pt = moves.next_to();
            match moves.next() {
                Some(m) => {
                    r.push(m);
                    proof {
                        assert forall|i: int| 0 <= i < r.len() implies {
                            &&& move_ball(v, r[i].2.from as int, r[i].2.to as int) == Some(#[trigger] r[i].0@)
                            &&& r[i].1 == 1
                        } by {
                            if i < before.len() {
                                assert(r[i] == before[i]);
                            } else {
                                assert(r[i] == m);
                            }
                        }
                        assert forall|a: Action|
                            #[trigger] legal(v, a) && !at_or_after(a, moves.next_from(), moves.next_to()) implies exists|i: int|
                                0 <= i < r.len() && r[i].2 == a by {
                            if a == m.2 {
                                assert(r[r.len() - 1] == m);
                            } else {
                                let i = choose|i: int| 0 <= i < before.len() && before[i].2 == a;
                                assert(r[i] == before[i]);
                            }
                        }
                        assert forall|i: int| 0 <= i < r.len() implies !at_or_after(
                            #[trigger] r[i].2,
                            moves.next_from(),
                            moves.next_to(),
                        ) by {
                            if i < before.len() {
                                assert(r[i] == before[i]);
                            } else {
                                assert(r[i] == m);
                            }
                        }
                        assert forall|i: int, j: int|
                            #![trigger r[i], r[j]]
                            0 <= i < j < r.len() implies !at_or_after(
                            r[i].2,
                            r[j].2.from as int,
                            r[j].2.to as int,
                        ) by {
                            assert(r[i] == before[i]);
                            if j < before.len() {
                                assert(r[j] == before[j]);
                            } else {
                                assert(r[j] == m);
                                assert(!at_or_after(before[i].2, pf, pt));
                            }
                        }
                    }
                },
                None => {
                    assert forall|a: Action| #[trigger] legal(v, a) implies exists|i: int|
                        0 <= i < r.len() && r[i].2 == a by {
                        assert(!at_or_after(a, pf, pt));
                    }
                    break;
                },
            }
        }
        r
    }
}

impl State for Game {
    type Edge = Action;

    open spec fn step(v: GameView, e: Action) -> Option<GameView> {
        move_ball(v, e.from as int, e.to as int)
    }

    open spec fn step_cost(v: GameView, e: Action) -> int {
        1
    }

    open spec fn goal(v: GameView) -> bool {
        game_solved(v)
    }

    fn iter_successors(self) -> (r: Vec<(Game, Score, Action)>) {
        let ghost v = self@;
        let r = self.successors();
        assert forall|e: Action| #[trigger] Self::step(v, e) is Some implies exists|i: int|
            0 <= i < r.len() && r[i].2 == e by {
            assert(legal(v, e));
        }
        r
    }

    open spec fn key_of(v: GameView) -> u64 {
        board_key(v) as u64
    }

    fn key(&self) -> (r: u64) {
        self.board_hash()
    }

    fn try_edge(&self, edge: &Action) -> (r: Option<Game>) {
        self.try_action(*edge)
    }

    fn is_solved(&self) -> (r: bool) {
        Game::is_solved(self)
    }

    fn same_state(&self, other: &Game) -> (r: bool) {
        self.same_board(other)
    }

    fn duplicate(&self) -> (r: Game) {
        Game::duplicate(self)
    }
}

/// The sequences of length `k` whose items all lie in `a`.
pub open spec fn seqs_over<T>(a: Set<T>, k: nat) -> Set<Seq<T>> {
    Set::new(|s: Seq<T>| s.len() == k && forall|i: int| 0 <= i < s.len() ==> a.contains(#[trigger] s[i]))
}

/// The non-empty sequences whose last item lies in `a` and whose other items form a member of
/// `s`.
spec fn extended<T>(a: Set<T>, s: Set<Seq<T>>) -> Set<Seq<T>> {
    Set::new(|x: Seq<T>| x.len() > 0 && s.contains(x.drop_last()) && a.contains(x.last()))
}

proof fn lemma_extended_finite<T>(a: Set<T>, s: Set<Seq<T>>)
    requires
        a.finite(),
        s.finite(),
    ensures
        extended(a, s).finite(),
    decreases a.len(),
{
    broadcast use vstd::set::group_set_axioms;
    broadcast use vstd::set_lib::lemma_set_empty_equivalency_len;

    if a.len() == 0 {
        assert(extended(a, s) =~= Set::empty());
    } else {
        let x = a.choose();
        let rest = a.remove(x);
        lemma_extended_finite(rest, s);
        let pushed = s.map(|t: Seq<T>| t.push(x));
        s.lemma_map_finite(|t: Seq<T>| t.push(x));
        assert forall|y: Seq<T>| #[trigger] extended(a, s).contains(y) implies extended(rest, s).union(pushed).contains(y) by {
            if y.last() == x {
                assert(y.drop_last().push(x) =~= y);
                assert(pushed.contains(y.drop_last().push(x)));
            }
        }
        assert forall|y: Seq<T>| #[trigger] extended(rest, s).union(pushed).contains(y) implies extended(a, s).contains(y) by {
            if pushed.contains(y) {
                let t = choose|t: Seq<T>| s.contains(t) && t.push(x) == y;
                assert(y.drop_last() =~= t);
            }
        }
        assert(extended(a, s) =~= extended(rest, s).union(pushed));
    }
}

/// Over a finite set of items, there are finitely many sequences of a given length.
pub proof fn lemma_seqs_over_finite<T>(a: Set<T>, k: nat)
    requires
        a.finite(),
    ensures
        seqs_over(a, k).finite(),
    decreases k,
{
    broadcast use vstd::set::group_set_axioms;

    if k == 0 {
        assert forall|y: Seq<T>| #[trigger] seqs_over(a, 0).contains(y) implies y == Seq::<T>::empty() by {
            assert(y =~= Seq::<T>::empty());
        }
        assert(seqs_over(a, 0) =~= set![Seq::<T>::empty()]);
    } else {
        lemma_seqs_over_finite(a, (k - 1) as nat);
        lemma_extended_finite(a, seqs_over(a, (k - 1) as nat));
        assert forall|y: Seq<T>| #[trigger] seqs_over(a, k).contains(y) implies extended(
            a,
            seqs_over(a, (k - 1) as nat),
        ).contains(y) by {
            assert(a.contains(y[y.len() - 1]));
            assert forall|i: int| 0 <= i < y.drop_last().len() implies a.contains(#[trigger] y.drop_last()[i]) by {
                assert(a.contains(y[i]));
            }
        }
        vstd::set_lib::lemma_set_subset_finite(extended(a, seqs_over(a, (k - 1) as nat)), seqs_over(a, k));
    }
}

/// Every place of a tube holds nothing or one of finitely many balls.
proof fn lemma_places_finite()
    ensures
        Set::<Option<Ball>>::full().finite(),
{
    broadcast use vstd::set::group_set_axioms;
    broadcast use vstd::set_lib::full_set_properties;

    let colors = Set::<u8>::full();
    assert(colors.finite());
    let balls = colors.map(|c: u8| Some(Ball { color: c }));
    colors.lemma_map_finite(|c: u8| Some(Ball { color: c }));
    assert forall|b: Option<Ball>| #[trigger] Set::<Option<Ball>>::full().contains(b) implies balls.insert(None).contains(b) by {
        if b is Some {
            assert(colors.contains(b->0.color));
            assert(b == Some(Ball { color: b->0.color }));
        }
    }
    assert(Set::<Option<Ball>>::full() =~= balls.insert(None));
}

/// The boards with `n` tubes of four places each.
pub open spec fn boards_of(n: nat) -> Set<GameView> {
    Set::new(|w: GameView| w.len() == n && well_shaped(w))
}

/// There are finitely many boards with a given number of tubes.
pub proof fn lemma_boards_finite(n: nat)
    ensures
        boards_of(n).finite(),
{
    lemma_places_finite();
    let places = Set::<Option<Ball>>::full();
    lemma_seqs_over_finite(places, 4);
    let tubes = seqs_over(places, 4);
    lemma_seqs_over_finite(tubes, n);
    assert forall|w: GameView| #[trigger] boards_of(n).contains(w) implies seqs_over(tubes, n).contains(w) by {
        assert forall|i: int| 0 <= i < w.len() implies tubes.contains(#[trigger] w[i]) by {
            assert(w[i].len() == 4);
            assert forall|j: int| 0 <= j < w[i].len() implies places.contains(#[trigger] w[i][j]) by {}
        }
    }
    vstd::set_lib::lemma_set_subset_finite(seqs_over(tubes, n), boards_of(n));
}

/// Moves keep the number of tubes and the shape of each.
pub proof fn lemma_replay_keeps_shape(v: GameView, p: Seq<Action>)
    requires
        well_shaped(v),
        replay::<Game>(v, p) is Some,
    ensures
        boards_of(v.len()).contains(replay::<Game>(v, p)->0),
    decreases p.len(),
{
    if p.len() > 0 {
        lemma_replay_keeps_shape(v, p.drop_last());
        let u = replay::<Game>(v, p.drop_last())->0;
        let w = replay::<Game>(v, p)->0;
        assert(move_ball(u, p.last().from as int, p.last().to as int) == Some(w));
        assert(well_shaped(w));
    }
}

/// From a board, finitely many boards can be reached, each with as many tubes.
pub proof fn lemma_reachable_finite(v: GameView)
    requires
        well_shaped(v),
    ensures
        reachable::<Game>(v).finite(),
        reachable::<Game>(v).subset_of(boards_of(v.len())),
{
    assert forall|w: GameView| #[trigger] reachable::<Game>(v).contains(w) implies boards_of(v.len()).contains(w) by {
        let p = choose|p: Seq<Action>| replay::<Game>(v, p) == Some(w);
        lemma_replay_keeps_shape(v, p);
    }
    lemma_boards_finite(v.len());
    vstd::set_lib::lemma_set_subset_finite(boards_of(v.len()), reachable::<Game>(v));
}

/// How many places of tube `t` hold `x`.
pub open spec fn count_in_tube(t: TubeView, x: Option<Ball>) -> int {
    one_if(t[0] == x) + one_if(t[1] == x) + one_if(t[2] == x) + one_if(t[3] == x)
}

/// How many places of the board hold `x`.
pub open spec fn count_on_board(v: GameView, x: Option<Ball>) -> int
    decreases v.len(),
{
    if v.len() == 0 {
        0
    } else {
        count_on_board(v.drop_last(), x) + count_in_tube(v.last(), x)
    }
}

/// The rule broken by the number of places that hold `x`, if any: a colour needs exactly 4
/// balls, and empty places number from 4 to 12.
pub open spec fn slot_error(v: GameView, x: Option<Ball>) -> Option<ValidationError> {
    let c = count_on_board(v, x);
    match x {
        Some(_) => if c < 4 {
            Some(ValidationError::NotEnoughBallsOfColor)
        } else if c > 4 {
            Some(ValidationError::TooManyBallsOfColor)
        } else {
            None
        },
        None => if c < 4 {
            Some(ValidationError::NotEnoughEmpties)
        } else if c > 12 {
            Some(ValidationError::TooManyEmpties)
        } else {
            None
        },
    }
}

/// The first rule broken by the count of what a place of `t` holds, bottom first.
pub open spec fn tube_error(v: GameView, t: TubeView) -> Option<ValidationError> {
    if slot_error(v, t[0]) is Some {
        slot_error(v, t[0])
    } else if slot_error(v, t[1]) is Some {
        slot_error(v, t[1])
    } else if slot_error(v, t[2]) is Some {
        slot_error(v, t[2])
    } else {
        slot_error(v, t[3])
    }
}

/// The first rule broken by a count, over the places of tubes `i` onwards.
pub open spec fn count_error_from(v: GameView, i: int) -> Option<ValidationError>
    decreases v.len() - i,
{
    if i >= v.len() || i < 0 {
        None
    } else if tube_error(v, v[i]) is Some {
        tube_error(v, v[i])
    } else {
        count_error_from(v, i + 1)
    }
}

/// Whether the board follows the rules, and if not, the first rule it breaks: 3 to 13 tubes, no
/// ball above an empty place, then the counts of what each place holds, in the order of the
/// places (tube by tube, bottom first), and last the count of empty places, which also breaks
/// the rules when there are none.
pub open spec fn validation(v: GameView) -> Result<(), ValidationError> {
    if v.len() < 3 {
        Err(ValidationError::NotEnoughTubes)
    } else if v.len() > 13 {
        Err(ValidationError::TooManyTubes)
    } else if !(forall|i: int| 0 <= i < v.len() ==> tube_upright(#[trigger] v[i])) {
        Err(ValidationError::SpaceBalls)
    } else {
        match count_error_from(v, 0) {
            Some(e) => Err(e),
            None => match slot_error(v, None) {
                Some(e) => Err(e),
                None => Ok(()),
            },
        }
    }
}

proof fn lemma_count_step(v: GameView, x: Option<Ball>, i: int)
    requires
        0 <= i < v.len(),
    ensures
        count_on_board(v.subrange(0, i + 1), x) == count_on_board(v.subrange(0, i), x) + count_in_tube(v[i], x),
{
    assert(v.subrange(0, i + 1).drop_last() =~= v.subrange(0, i));
}

proof fn lemma_count_error_from(v: GameView, i: int)
    requires
        0 <= i <= v.len(),
        forall|j: int| 0 <= j < i ==> tube_error(v, #[trigger] v[j]) is None,
    ensures
        count_error_from(v, 0) == count_error_from(v, i),
    decreases i,
{
    if i > 0 {
        lemma_count_error_from(v, i - 1);
    }
}

impl Game {
    /// How many places of the board hold `x`.
    fn count_of(&self, x: Option<Ball>) -> (r: usize)
        requires
            self.tubes.len() <= 13,
        ensures
            r == count_on_board(self@, x),
            r <= 52,
    {
        let ghost v = self@;
        proof {
            lemma_game_view_shape(self);
        }
        let mut r: usize = 0;
        let mut i: usize = 0;
        while i < self.tubes.len()
            invariant
                i <= self.tubes.len() <= 13,
                v == self@,
                r == count_on_board(v.subrange(0, i as int), x),
                r <= 4 * i,
            decreases self.tubes.len() - i,
        {
            proof {
                lemma_count_step(v, x, i as int);
                assert(v[i as int] == self.tubes[i as int]@);
            }
            let t = &self.tubes[i];
            if same_slot(t.balls[0], x) {
                r += 1;
            }
            if same_slot(t.balls[1], x) {
                r += 1;
            }
            if same_slot(t.balls[2], x) {
                r += 1;
            }
            if same_slot(t.balls[3], x) {
                r += 1;
            }
            i += 1;
        }
        proof {
            assert(v.subrange(0, v.len() as int) =~= v);
        }
        r
    }

    fn slot_error(&self, x: Option<Ball>) -> (r: Option<ValidationError>)
        requires
            self.tubes.len() <= 13,
        ensures
            r == slot_error(self@, x),
    {
        let c = self.count_of(x);
        match x {
            Some(_) => if c < 4 {
                Some(ValidationError::NotEnoughBallsOfColor)
            } else if c > 4 {
                Some(ValidationError::TooManyBallsOfColor)
            } else {
                None
            },
            None => if c < 4 {
                Some(ValidationError::NotEnoughEmpties)
            } else if c > 12 {
                Some(ValidationError::TooManyEmpties)
            } else {
                None
            },
        }
    }

    /// Checks that the board follows the rules: 3 to 13 tubes; no ball above an empty place;
    /// exactly 4 balls of each colour; and 4 to 12 empty places. Reports the first rule broken,
    /// in that order, and for the counts in the order of the places (tube by tube, bottom
    /// first); a board with no empty place at all breaks the last rule.
    pub fn validate(&self) -> (r: Result<(), ValidationError>)
        ensures
            r == validation(self@),
    {
        proof {
            lemma_game_view_shape(self);
        }
        if self.tubes.len() < 3 {
            return Err(ValidationError::NotEnoughTubes);
        }
        if self.tubes.len() > 13 {
            return Err(ValidationError::TooManyTubes);
        }
        let mut i: usize = 0;
        while i < self.tubes.len()
            invariant
                3 <= self.tubes.len() <= 13,
                i <= self.tubes.len(),
                self@.len() == self.tubes.len(),
                forall|j: int| 0 <= j < i ==> tube_upright(#[trigger] self@[j]),
            decreases self.tubes.len() - i,
        {
            if !self.tubes[i].is_valid() {
                assert(!tube_upright(self@[i as int]));
                return Err(ValidationError::SpaceBalls);
            }
            i += 1;
        }
        let ghost v = self@;
        let mut i: usize = 0;
        while i < self.tubes.len()
            invariant
                3 <= self.tubes.len() <= 13,
                i <= self.tubes.len(),
                v == self@,
                v.len() == self.tubes.len(),
                forall|j: int| 0 <= j < v.len() ==> tube_upright(#[trigger] v[j]),
                forall|j: int| 0 <= j < i ==> tube_error(v, #[trigger] v[j]) is None,
            decreases self.tubes.len() - i,
        {
            let t = &self.tubes[i];
            assert(v[i as int] == t@);
            let mut e = self.slot_error(t.balls[0]);
            if e.is_none() {
                e = self.slot_error(t.balls[1]);
            }
            if e.is_none() {
                e = self.slot_error(t.balls[2]);
            }
            if e.is_none() {
                e = self.slot_error(t.balls[3]);
            }
            match e {
                Some(err) => {
                    proof {
                        lemma_count_error_from(v, i as int);
                        assert(tube_error(v, v[i as int]) == Some(err));
                    }
                    return Err(err);
                },
                None => {},
            }
            i += 1;
        }
        proof {
            lemma_count_error_from(v, v.len() as int);
        }
        match self.slot_error(None) {
            Some(err) => Err(err),
            None => Ok(()),
        }
    }
}

/// `s` followed by the colour of `b`, unless `b` is empty or its colour is already in `s`.
pub open spec fn add_color(s: Seq<u8>, b: Option<Ball>) -> Seq<u8> {
    match b {
        Some(ball) => if s.contains(ball.color) {
            s
        } else {
            s.push(ball.color)
        },
        None => s,
    }
}

/// `s` followed by the new colours of tube `t`, bottom first.
pub open spec fn add_tube_colors(s: Seq<u8>, t: TubeView) -> Seq<u8> {
    add_color(add_color(add_color(add_color(s, t[0]), t[1]), t[2]), t[3])
}

/// The colours of the first `i` tubes, in order of first appearance.
pub open spec fn colors_upto(v: GameView, i: int) -> Seq<u8>
    decreases i,
{
    if i <= 0 {
        Seq::empty()
    } else {
        add_tube_colors(colors_upto(v, i - 1), v[i - 1])
    }
}

/// The colours of the board, in order of first appearance (tube by tube, bottom first).
pub open spec fn palette(v: GameView) -> Seq<u8> {
    colors_upto(v, v.len() as int)
}

/// `b` with its colour replaced by one plus the colour's index in `pal`.
pub open spec fn recolor(pal: Seq<u8>, b: Option<Ball>) -> Option<Ball> {
    match b {
        Some(ball) => Some(Ball { color: (pal.index_of(ball.color) + 1) as u8 }),
        None => None,
    }
}

/// The board with each colour replaced by its number in order of first appearance, from 1.
pub open spec fn compressed(v: GameView) -> GameView {
    v.map_values(|t: TubeView| t.map_values(|b: Option<Ball>| recolor(palette(v), b)))
}

/// No ball has colour zero.
pub open spec fn colors_nonzero(v: GameView) -> bool {
    forall|i: int, j: int|
        0 <= i < v.len() && 0 <= j < v[i].len() && (#[trigger] v[i][j]) is Some ==> v[i][j]->0.color != 0
}

/// Distinct non-zero bytes number at most 255.
proof fn lemma_distinct_nonzero_bound(s: Seq<u8>)
    requires
        s.no_duplicates(),
        forall|k: int| 0 <= k < s.len() ==> s[k] != 0,
    ensures
        s.len() <= 255,
{
    broadcast use vstd::set::group_set_axioms;

    s.unique_seq_to_set();
    let nonzero = Set::<u8>::range(1, 255).insert(255);
    <u8 as vstd::set_lib::FiniteRange>::range_properties(1, 255);
    assert forall|x: u8| #[trigger] s.to_set().contains(x) implies nonzero.contains(x) by {
        let k = choose|k: int| 0 <= k < s.len() && s[k] == x;
    }
    vstd::set_lib::lemma_len_subset(s.to_set(), nonzero);
}

/// Adds the colour of `b` to `pal` unless it is there or `b` is empty.
fn push_color(pal: &mut Vec<u8>, b: Option<Ball>)
    requires
        old(pal)@.no_duplicates(),
        forall|k: int| 0 <= k < old(pal).len() ==> old(pal)[k] != 0,
        b is Some ==> b->0.color != 0,
    ensures
        final(pal)@ == add_color(old(pal)@, b),
        final(pal)@.no_duplicates(),
        forall|k: int| 0 <= k < final(pal).len() ==> final(pal)[k] != 0,
        final(pal).len() <= 255,
{
    match b {
        Some(ball) => {
            let mut k: usize = 0;
            while k < pal.len()
                invariant
                    k <= pal.len(),
                    pal@ == old(pal)@,
                    b == Some(ball),
                    old(pal)@.no_duplicates(),
                    forall|m: int| 0 <= m < old(pal).len() ==> old(pal)[m] != 0,
                    forall|m: int| 0 <= m < k ==> pal[m] != ball.color,
                decreases pal.len() - k,
            {
                if pal[k] == ball.color {
                    proof {
                        assert(pal@.contains(ball.color));
                        lemma_distinct_nonzero_bound(pal@);
                    }
                    return;
                }
                k += 1;
            }
            pal.push(ball.color);
        },
        None => {},
    }
    proof {
        lemma_distinct_nonzero_bound(pal@);
    }
}

proof fn lemma_add_color_keeps(s: Seq<u8>, b: Option<Ball>, x: u8)
    ensures
        s.contains(x) ==> add_color(s, b).contains(x),
        b is Some ==> add_color(s, b).contains(b->0.color),
{
    if s.contains(x) && b is Some && !s.contains(b->0.color) {
        let k = choose|k: int| 0 <= k < s.len() && s[k] == x;
        assert(s.push(b->0.color)[k] == x);
    }
    if b is Some && !s.contains(b->0.color) {
        assert(s.push(b->0.color)[s.len() as int] == b->0.color);
    }
}

/// The colours of earlier tubes stay, and those of tube `i - 1` are added.
proof fn lemma_colors_upto_grows(v: GameView, i: int, j: int)
    requires
        0 <= j < i <= v.len(),
        well_shaped(v),
    ensures
        forall|x: u8| colors_upto(v, j).contains(x) ==> #[trigger] colors_upto(v, i).contains(x),
        forall|m: int| 0 <= m < 4 && v[j][m] is Some ==> colors_upto(v, i).contains(#[trigger] v[j][m]->0.color),
    decreases i - j,
{
    let t = v[i - 1];
    let s = colors_upto(v, i - 1);
    assert forall|x: u8| s.contains(x) implies #[trigger] colors_upto(v, i).contains(x) by {
        lemma_add_color_keeps(s, t[0], x);
        lemma_add_color_keeps(add_color(s, t[0]), t[1], x);
        lemma_add_color_keeps(add_color(add_color(s, t[0]), t[1]), t[2], x);
        lemma_add_color_keeps(add_color(add_color(add_color(s, t[0]), t[1]), t[2]), t[3], x);
    }
    if j == i - 1 {
        assert forall|m: int| 0 <= m < 4 && v[j][m] is Some implies colors_upto(v, i).contains(#[trigger] v[j][m]->0.color) by {
            let x = v[j][m]->0.color;
            let s1 = add_color(s, t[0]);
            let s2 = add_color(s1, t[1]);
            let s3 = add_color(s2, t[2]);
            lemma_add_color_keeps(s, t[0], x);
            lemma_add_color_keeps(s1, t[1], x);
            lemma_add_color_keeps(s2, t[2], x);
            lemma_add_color_keeps(s3, t[3], x);
        }
    } else {
        lemma_colors_upto_grows(v, i - 1, j);
    }
}

impl Game {
    /// Replaces each colour by its number in order of first appearance (tube by tube, bottom
    /// first), counting from 1. Afterwards colours are small numbers, which some heuristics use
    /// as indices.
    pub fn compress(&mut self)
        requires
            colors_nonzero(old(self)@),
        ensures
            final(self)@ == compressed(old(self)@),
    {
        let ghost v = self@;
        proof {
            lemma_game_view_shape(self);
        }
        let mut pal: Vec<u8> = Vec::new();
        let mut i: usize = 0;
        while i < self.tubes.len()
            invariant
                i <= self.tubes.len(),
                v == self@,
                v.len() == self.tubes.len(),
                well_shaped(v),
                colors_nonzero(v),
                pal@ == colors_upto(v, i as int),
                pal@.no_duplicates(),
                forall|k: int| 0 <= k < pal.len() ==> pal[k] != 0,
                pal.len() <= 255,
            decreases self.tubes.len() - i,
        {
            let t = self.tubes[i];
            assert(v[i as int] == t@);
            assert(t@[0] is Some ==> t@[0]->0.color != 0);
            assert(t@[1] is Some ==> t@[1]->0.color != 0);
            assert(t@[2] is Some ==> t@[2]->0.color != 0);
            assert(t@[3] is Some ==> t@[3]->0.color != 0);
            push_color(&mut pal, t.balls[0]);
            push_color(&mut pal, t.balls[1]);
            push_color(&mut pal, t.balls[2]);
            push_color(&mut pal, t.balls[3]);
            i += 1;
        }
        let ghost pal_spec = palette(v);
        assert(pal@ == pal_spec);
        let mut i: usize = 0;
        while i < self.tubes.len()
            invariant
                i <= self.tubes.len() == v.len(),
                well_shaped(v),
                pal@ == palette(v),
                pal@.no_duplicates(),
                pal.len() <= 255,
                self@.len() == v.len(),
                forall|k: int| 0 <= k < i ==> #[trigger] self@[k] == compressed(v)[k],
                forall|k: int| i <= k < v.len() ==> #[trigger] self@[k] == v[k],
            decreases self.tubes.len() - i,
        {
            proof {
                lemma_game_view_shape(self);
            }
            let mut t = self.tubes[i];
            assert(self@[i as int] == v[i as int]);
            assert(self@[i as int] == self.tubes[i as int]@);
            assert(t@ == v[i as int]);
            let mut j: usize = 0;
            while j < 4
                invariant
                    j <= 4,
                    i < v.len(),
                    well_shaped(v),
                    pal@ == palette(v),
                    pal@.no_duplicates(),
                    pal.len() <= 255,
                    forall|m: int| 0 <= m < j ==> #[trigger] t@[m] == recolor(palette(v), v[i as int][m]),
                    forall|m: int| j <= m < 4 ==> #[trigger] t@[m] == v[i as int][m],
                decreases 4 - j,
            {
                let b = t.balls[j];
                assert(b == t@[j as int]);
                match b {
                    Some(ball) => {
                        proof {
                            lemma_colors_upto_grows(v, v.len() as int, i as int);
                            assert(v[i as int][j as int] == Some(ball));
                            assert(pal@.contains(ball.color));
                        }
                        let mut k: usize = 0;
                        while k < pal.len() && pal[k] != ball.color
                            invariant
                                k <= pal.len(),
                                pal@.contains(ball.color),
                                forall|m: int| 0 <= m < k ==> pal[m] != ball.color,
                            decreases pal.len() - k,
                        {
                            k += 1;
                        }
                        assert(k < pal.len());
                        assert(pal@.index_of(ball.color) == k);
                        let ghost before = t;
                        t = tube_with(t, j, Some(Ball { color: (k + 1) as u8 }));
                        assert forall|m: int| 0 <= m < j + 1 implies #[trigger] t@[m] == recolor(palette(v), v[i as int][m]) by {
                            if m < j {
                                assert(t@[m] == before@[m]);
                            }
                        }
                        assert forall|m: int| j + 1 <= m < 4 implies #[trigger] t@[m] == v[i as int][m] by {
                            assert(t@[m] == before@[m]);
                        }
                    },
                    None => {
                        assert(v[i as int][j as int] is None);
                    },
                }
                j += 1;
            }
            let ghost before = self@;
            self.tubes.set(i, t);
            proof {
                lemma_game_view_shape(self);
                assert(t@ =~= compressed(v)[i as int]);
                assert forall|k: int| 0 <= k < i + 1 implies #[trigger] self@[k] == compressed(v)[k] by {
                    if k < i {
                        assert(self@[k] == before[k]);
                    }
                }
                assert forall|k: int| i + 1 <= k < v.len() implies #[trigger] self@[k] == v[k] by {
                    assert(self@[k] == before[k]);
                }
            }
            i += 1;
        }
        proof {
            assert(self@ =~= compressed(v));
        }
    }
}

/// How a ball of colour `c` is shown: a hexadecimal digit below 16, else the character with
/// that code.
pub open spec fn ball_glyph(c: u8) -> char {
    if c < 10 {
        (48 + c) as char
    } else if c < 16 {
        (87 + c) as char
    } else {
        c as char
    }
}

/// How a place is shown: its ball's glyph, or a space when empty.
pub open spec fn slot_glyph(b: Option<Ball>) -> char {
    match b {
        Some(ball) => ball_glyph(ball.color),
        None => ' ',
    }
}

/// How a tube is shown: the glyphs of its places, bottom first.
pub open spec fn tube_text(t: TubeView) -> Seq<char> {
    seq![slot_glyph(t[0]), slot_glyph(t[1]), slot_glyph(t[2]), slot_glyph(t[3])]
}

/// A tube's index, right-aligned in two columns.
pub open spec fn index_text(i: nat) -> Seq<char> {
    if i < 10 {
        seq![' ', digit_char(i as int)]
    } else {
        decimal(i)
    }
}

/// The line that shows tube `t` at index `i`: `[ i] ....` and a line feed.
pub open spec fn line_text(i: nat, t: TubeView) -> Seq<char> {
    seq!['['] + index_text(i) + seq![']', ' '] + tube_text(t) + seq!['\n']
}

/// How a board is shown: one line per tube.
pub open spec fn board_text(v: GameView) -> Seq<char>
    decreases v.len(),
{
    if v.len() == 0 {
        Seq::empty()
    } else {
        board_text(v.drop_last()) + line_text((v.len() - 1) as nat, v.last())
    }
}

fn slot_char(b: Option<Ball>) -> (r: char)
    ensures
        r == slot_glyph(b),
{
    match b {
        Some(ball) => ball.glyph(),
        None => ' ',
    }
}

impl Ball {
    /// The character that shows the ball.
    pub fn glyph(&self) -> (r: char)
        ensures
            r == ball_glyph(self.color),
    {
        let c = self.color;
        if c < 10 {
            (48 + c) as char
        } else if c < 16 {
            (87 + c) as char
        } else {
            c as char
        }
    }

    /// The ball shown as text.
    pub fn to_string(&self) -> (r: String)
        ensures
            r@ == seq![ball_glyph(self.color)],
    {
        let chars = vec![self.glyph()];
        assert(chars@ =~= seq![ball_glyph(self.color)]);
        chars_to_string(&chars)
    }
}

impl Tube {
    /// The characters that show the tube.
    pub fn render(&self) -> (r: Vec<char>)
        ensures
            r@ == tube_text(self@),
    {
        let r = vec![slot_char(self.balls[0]), slot_char(self.balls[1]), slot_char(self.balls[2]), slot_char(self.balls[3])];
        assert(r@ =~= tube_text(self@));
        r
    }

    /// The tube shown as text.
    pub fn to_string(&self) -> (r: String)
        ensures
            r@ == tube_text(self@),
    {
        chars_to_string(&self.render())
    }
}

impl Game {
    /// The characters that show the board.
    pub fn render(&self) -> (r: Vec<char>)
        ensures
            r@ == board_text(self@),
    {
        let ghost v = self@;
        proof {
            lemma_game_view_shape(self);
        }
        let mut r: Vec<char> = Vec::new();
        let mut i: usize = 0;
        while i < self.tubes.len()
            invariant
                i <= self.tubes.len(),
                v == self@,
                v.len() == self.tubes.len(),
                r@ == board_text(v.subrange(0, i as int)),
            decreases self.tubes.len() - i,
        {
            let ghost before = r@;
            r.push('[');
            if i < 10 {
                r.push(' ');
            }
            push_decimal(&mut r, i);
            r.push(']');
            r.push(' ');
            let t = self.tubes[i].render();
            proof {
                if i < 10 {
                    assert(decimal(i as nat) == seq![digit_char(i as int)]);
                }
                assert(r@ =~= before + seq!['['] + index_text(i as nat) + seq![']', ' ']);
            }
            let ghost mid = r@;
            let mut k: usize = 0;
            while k < 4
                invariant
                    k <= 4,
                    t@.len() == 4,
                    r@ == mid + t@.subrange(0, k as int),
                decreases 4 - k,
            {
                r.push(t[k]);
                k += 1;
                assert(r@ =~= mid + t@.subrange(0, k as int));
            }
            assert(t@.subrange(0, 4) =~= t@);
            r.push('\n');
            proof {
                let w = v.subrange(0, i + 1);
                assert(w.drop_last() =~= v.subrange(0, i as int));
                assert(w.last() == self.tubes[i as int]@);
                if i < 10 {
                    assert(decimal(i as nat) == seq![digit_char(i as int)]);
                }
            }
            assert(r@ =~= before + line_text(i as nat, self.tubes[i as int]@));
            i += 1;
        }
        assert(v.subrange(0, v.len() as int) =~= v);
        r
    }

    /// The board shown as text: one line per tube, `[ i] ` then its balls bottom first.
    pub fn to_string(&self) -> (r: String)
        ensures
            r@ == board_text(self@),
    {
        chars_to_string(&self.render())
    }
}

} // verus!
