//! Reading a board from text.
//!
//! The text is a sequence of lines, each trimmed of surrounding whitespace (as
//! `str::trim` does: every Unicode white-space character, read as UTF-8). Empty lines
//! and lines that start with `//` are skipped. The first two remaining lines hold the number of
//! full tubes and the number of empty tubes, as decimal `i32`s with an optional sign. Each full
//! tube then takes one line of exactly four printable ASCII characters, its balls bottom first.
//! The board is the empty tubes followed by the full ones, and it must follow the rules of
//! `Game::validate`.
use vstd::prelude::*;
use crate::game::{Ball, Game, GameView, Tube, TubeView, ValidationError, validation};

verus! {

/// Why a text does not describe a board.
#[derive(Clone, Copy, Debug, PartialEq, Eq)]
pub enum InputError {
    /// The text ends before both counts are read.
    MissingHeader,
    /// The count of full tubes is not an `i32`.
    BadFullCount,
    /// The count of empty tubes is not an `i32`.
    BadEmptyCount,
    /// The text ends before every full tube is read.
    MissingTubes,
    /// A tube line holds a byte that is not ASCII.
    NonAscii,
    /// A tube line does not hold exactly four characters.
    WrongWidth,
    /// A tube line holds a character that is not printable.
    Unprintable,
    /// A line follows the last tube.
    UnexpectedLine,
    /// The board breaks a rule.
    Invalid(ValidationError),
}

/// `a` is the UTF-8 encoding of one whitespace character: tab, line feed, vertical tab, form
/// feed, carriage return, space, U+0085, U+00A0, U+1680, U+2000 to U+200A, U+2028, U+2029,
/// U+202F, U+205F or U+3000.
pub open spec fn is_space_char(a: Seq<u8>) -> bool {
    ||| a.len() == 1 && (a[0] == 32 || (9 <= a[0] <= 13))
    ||| a.len() == 2 && a[0] == 0xc2 && (a[1] == 0x85 || a[1] == 0xa0)
    ||| a.len() == 3 && a[0] == 0xe1 && a[1] == 0x9a && a[2] == 0x80
    ||| a.len() == 3 && a[0] == 0xe2 && a[1] == 0x80 && ((0x80 <= a[2] <= 0x8a) || a[2] == 0xa8 || a[2]
        == 0xa9 || a[2] == 0xaf)
    ||| a.len() == 3 && a[0] == 0xe2 && a[1] == 0x81 && a[2] == 0x9f
    ||| a.len() == 3 && a[0] == 0xe3 && a[1] == 0x80 && a[2] == 0x80
}

/// The length of the whitespace character that `s` starts with, or zero.
pub open spec fn lead_space(s: Seq<u8>) -> int {
    if s.len() >= 1 && is_space_char(s.subrange(0, 1)) {
        1
    } else if s.len() >= 2 && is_space_char(s.subrange(0, 2)) {
        2
    } else if s.len() >= 3 && is_space_char(s.subrange(0, 3)) {
        3
    } else {
        0
    }
}

/// The length of the whitespace character that `s` ends with, or zero.
pub open spec fn trail_space(s: Seq<u8>) -> int {
    if s.len() >= 1 && is_space_char(s.subrange(s.len() - 1, s.len() as int)) {
        1
    } else if s.len() >= 2 && is_space_char(s.subrange(s.len() - 2, s.len() as int)) {
        2
    } else if s.len() >= 3 && is_space_char(s.subrange(s.len() - 3, s.len() as int)) {
        3
    } else {
        0
    }
}

/// A printable ASCII character other than space.
pub open spec fn is_graphic(b: u8) -> bool {
    33 <= b <= 126
}

/// `s` without leading whitespace.
pub open spec fn trim_start(s: Seq<u8>) -> Seq<u8>
    decreases s.len(),
{
    if lead_space(s) > 0 {
        trim_start(s.subrange(lead_space(s), s.len() as int))
    } else {
        s
    }
}

/// `s` without trailing whitespace.
pub open spec fn trim_end(s: Seq<u8>) -> Seq<u8>
    decreases s.len(),
{
    if trail_space(s) > 0 {
        trim_end(s.subrange(0, s.len() - trail_space(s)))
    } else {
        s
    }
}

/// `s` without leading and trailing whitespace, as UTF-8.
pub open spec fn trim(s: Seq<u8>) -> Seq<u8> {
    trim_end(trim_start(s))
}

/// A line that starts with `//`.
pub open spec fn is_comment(s: Seq<u8>) -> bool {
    s.len() >= 2 && s[0] == 47 && s[1] == 47
}

/// The number written by the decimal digits `s`.
pub open spec fn digits_value(s: Seq<u8>) -> int
    decreases s.len(),
{
    if s.len() == 0 {
        0
    } else {
        digits_value(s.drop_last()) * 10 + (s.last() - 48)
    }
}

/// Every byte of `s` is a decimal digit.
pub open spec fn all_digits(s: Seq<u8>) -> bool {
    forall|i: int| 0 <= i < s.len() ==> 48 <= #[trigger] s[i] <= 57
}

/// The `i32` written by `s`: an optional `+` or `-`, then one or more decimal digits, with a
/// value in range.
pub open spec fn parse_i32(s: Seq<u8>) -> Option<i32> {
    let signed = s.len() > 0 && (s[0] == 45 || s[0] == 43);
    let body = if signed {
        s.drop_first()
    } else {
        s
    };
    let value = if signed && s[0] == 45 {
        -digits_value(body)
    } else {
        digits_value(body)
    };
    if body.len() == 0 || !all_digits(body) || value < i32::MIN || value > i32::MAX {
        None
    } else {
        Some(value as i32)
    }
}

/// The tube written by a line of four printable ASCII characters, bottom first.
pub open spec fn tube_line(s: Seq<u8>) -> Result<TubeView, InputError> {
    if exists|i: int| 0 <= i < s.len() && #[trigger] s[i] >= 128 {
        Err(InputError::NonAscii)
    } else if s.len() != 4 {
        Err(InputError::WrongWidth)
    } else if exists|i: int| 0 <= i < 4 && !is_graphic(#[trigger] s[i]) {
        Err(InputError::Unprintable)
    } else {
        Ok(seq![Some(Ball { color: s[0] }), Some(Ball { color: s[1] }), Some(Ball { color: s[2] }), Some(Ball { color: s[3] })])
    }
}

/// What has been read so far: whether each count was read, the number of full tubes still
/// expected, the number of empty tubes, and the full tubes read.
pub type ReadState = (bool, bool, int, int, Seq<TubeView>);

/// The state after reading the trimmed line `line`.
pub open spec fn read_line(st: ReadState, line: Seq<u8>) -> Result<ReadState, InputError> {
    let (full_read, empty_read, remaining, empties, tubes) = st;
    if line.len() == 0 || is_comment(line) {
        Ok(st)
    } else if !full_read {
        match parse_i32(line) {
            Some(n) => Ok((true, empty_read, n as int, empties, tubes)),
            None => Err(InputError::BadFullCount),
        }
    } else if !empty_read {
        match parse_i32(line) {
            Some(m) => Ok((true, true, remaining, m as int, tubes)),
            None => Err(InputError::BadEmptyCount),
        }
    } else if remaining > 0 {
        match tube_line(line) {
            Ok(t) => Ok((full_read, empty_read, remaining - 1, empties, tubes.push(t))),
            Err(e) => Err(e),
        }
    } else {
        Err(InputError::UnexpectedLine)
    }
}

/// An empty tube.
pub open spec fn no_balls() -> TubeView {
    seq![None::<Ball>, None, None, None]
}

/// The board once the text has ended: the empty tubes (none for a negative count), then the
/// full ones.
pub open spec fn finish(st: ReadState) -> Result<GameView, InputError> {
    let (full_read, empty_read, remaining, empties, tubes) = st;
    if !full_read || !empty_read {
        Err(InputError::MissingHeader)
    } else if remaining > 0 {
        Err(InputError::MissingTubes)
    } else {
        let n = if empties > 0 {
            empties
        } else {
            0
        };
        let board = Seq::new(n as nat, |i: int| no_balls()) + tubes;
        match validation(board) {
            Ok(()) => Ok(board),
            Err(e) => Err(InputError::Invalid(e)),
        }
    }
}

/// The board written by `t`, in state `st`, where the current line starts at byte `start` and
/// the bytes from `start` up to `i` hold no line feed.
pub open spec fn read_from(t: Seq<u8>, start: int, i: int, st: ReadState) -> Result<GameView, InputError>
    decreases t.len() - i,
{
    if i >= t.len() {
        if start >= t.len() {
            finish(st)
        } else {
            match read_line(st, trim(t.subrange(start, t.len() as int))) {
                Err(x) => Err(x),
                Ok(st2) => finish(st2),
            }
        }
    } else if t[i] == 10 {
        match read_line(st, trim(t.subrange(start, i))) {
            Err(x) => Err(x),
            Ok(st2) => read_from(t, i + 1, i + 1, st2),
        }
    } else {
        read_from(t, start, i + 1, st)
    }
}

/// The board written by the text `t`.
pub open spec fn read_board(t: Seq<u8>) -> Result<GameView, InputError> {
    read_from(t, 0, 0, (false, false, 0, 0, Seq::empty()))
}

/// Whether the `n` bytes of `t` from `i` encode one whitespace character.
fn space_char_at(t: &[u8], i: usize, n: usize) -> (r: bool)
    requires
        1 <= n <= 3,
        i + n <= t.len(),
    ensures
        r == is_space_char(t@.subrange(i as int, i + n)),
{
    let ghost a = t@.subrange(i as int, i + n);
    assert(a.len() == n);
    assert(forall|k: int| 0 <= k < n ==> a[k] == t@[i + k]);
    if n == 1 {
        let b = t[i];
        b == 32 || (9 <= b && b <= 13)
    } else if n == 2 {
        t[i] == 0xc2 && (t[i + 1] == 0x85 || t[i + 1] == 0xa0)
    } else {
        let (b0, b1, b2) = (t[i], t[i + 1], t[i + 2]);
        (b0 == 0xe1 && b1 == 0x9a && b2 == 0x80) || (b0 == 0xe2 && b1 == 0x80 && ((0x80 <= b2 && b2 <= 0x8a) || b2
            == 0xa8 || b2 == 0xa9 || b2 == 0xaf)) || (b0 == 0xe2 && b1 == 0x81 && b2 == 0x9f) || (b0 == 0xe3 && b1
            == 0x80 && b2 == 0x80)
    }
}

/// The length of the whitespace character that the bytes of `t` from `lo` to `hi` start with.
fn lead_space_at(t: &[u8], lo: usize, hi: usize) -> (r: usize)
    requires
        lo <= hi <= t.len(),
    ensures
        r == lead_space(t@.subrange(lo as int, hi as int)),
{
    let ghost s = t@.subrange(lo as int, hi as int);
    assert(s.subrange(0, 1) == t@.subrange(lo as int, lo + 1) || s.len() < 1);
    assert(s.subrange(0, 2) == t@.subrange(lo as int, lo + 2) || s.len() < 2);
    assert(s.subrange(0, 3) == t@.subrange(lo as int, lo + 3) || s.len() < 3);
    if hi - lo >= 1 && space_char_at(t, lo, 1) {
        1
    } else if hi - lo >= 2 && space_char_at(t, lo, 2) {
        2
    } else if hi - lo >= 3 && space_char_at(t, lo, 3) {
        3
    } else {
        0
    }
}

/// The length of the whitespace character that the bytes of `t` from `lo` to `hi` end with.
fn trail_space_at(t: &[u8], lo: usize, hi: usize) -> (r: usize)
    requires
        lo <= hi <= t.len(),
    ensures
        r == trail_space(t@.subrange(lo as int, hi as int)),
{
    let ghost s = t@.subrange(lo as int, hi as int);
    assert(s.len() < 1 || s.subrange(s.len() - 1, s.len() as int) == t@.subrange(hi - 1, hi as int));
    assert(s.len() < 2 || s.subrange(s.len() - 2, s.len() as int) == t@.subrange(hi - 2, hi as int));
    assert(s.len() < 3 || s.subrange(s.len() - 3, s.len() as int) == t@.subrange(hi - 3, hi as int));
    if hi - lo >= 1 && space_char_at(t, hi - 1, 1) {
        1
    } else if hi - lo >= 2 && space_char_at(t, hi - 2, 2) {
        2
    } else if hi - lo >= 3 && space_char_at(t, hi - 3, 3) {
        3
    } else {
        0
    }
}

/// The bounds of the bytes from `start` to `end` without leading and trailing whitespace.
fn trim_bounds(t: &[u8], start: usize, end: usize) -> (r: (usize, usize))
    requires
        start <= end <= t.len(),
    ensures
        start <= r.0 <= r.1 <= end,
        t@.subrange(r.0 as int, r.1 as int) == trim(t@.subrange(start as int, end as int)),
{
    let ghost whole = trim_start(t@.subrange(start as int, end as int));
    let mut lo = start;
    let mut n = lead_space_at(t, lo, end);
    while n > 0
        invariant
            start <= lo <= end <= t.len(),
            n == lead_space(t@.subrange(lo as int, end as int)),
            n <= end - lo,
            trim_start(t@.subrange(lo as int, end as int)) == whole,
        decreases end - lo,
    {
        assert(t@.subrange(lo as int, end as int).subrange(n as int, end - lo) =~= t@.subrange(lo + n, end as int));
        lo = lo + n;
        n = lead_space_at(t, lo, end);
    }
    assert(whole == t@.subrange(lo as int, end as int));
    let ghost rest = trim_end(whole);
    let mut hi = end;
    let mut m = trail_space_at(t, lo, hi);
    while m > 0
        invariant
            start <= lo <= hi <= end <= t.len(),
            m == trail_space(t@.subrange(lo as int, hi as int)),
            m <= hi - lo,
            trim_end(t@.subrange(lo as int, hi as int)) == rest,
        decreases hi - lo,
    {
        assert(t@.subrange(lo as int, hi as int).subrange(0, hi - lo - m) =~= t@.subrange(lo as int, hi - m));
        hi = hi - m;
        m = trail_space_at(t, lo, hi);
    }
    (lo, hi)
}

proof fn lemma_digits_grow(s: Seq<u8>, k: int)
    requires
        all_digits(s),
        0 <= k <= s.len(),
    ensures
        0 <= digits_value(s.subrange(0, k)) <= digits_value(s),
    decreases s.len(),
{
    if k == s.len() {
        assert(s.subrange(0, k) =~= s);
        if s.len() > 0 {
            lemma_digits_grow(s.drop_last(), 0);
        }
    } else {
        let d = s.drop_last();
        assert(all_digits(d)) by {
            assert forall|i: int| 0 <= i < d.len() implies 48 <= #[trigger] d[i] <= 57 by {
                assert(d[i] == s[i]);
            }
        }
        lemma_digits_grow(d, k);
        lemma_digits_grow(d, d.len() as int);
        assert(d.subrange(0, k) =~= s.subrange(0, k));
        assert(d.subrange(0, d.len() as int) =~= d);
        assert(48 <= s[s.len() - 1] <= 57);
    }
}

/// The `i32` written by the bytes from `lo` to `hi`.
fn parse_i32_at(t: &[u8], lo: usize, hi: usize) -> (r: Option<i32>)
    requires
        lo <= hi <= t.len(),
    ensures
        r == parse_i32(t@.subrange(lo as int, hi as int)),
{
    let ghost s = t@.subrange(lo as int, hi as int);
    let signed = lo < hi && (t[lo] == 45 || t[lo] == 43);
    let negative = signed && t[lo] == 45;
    let b0: usize = if signed {
        lo + 1
    } else {
        lo
    };
    let ghost body = t@.subrange(b0 as int, hi as int);
    assert(body =~= (if signed {
        s.drop_first()
    } else {
        s
    }));
    if b0 == hi {
        return None;
    }
    let mut acc: i64 = 0;
    let mut i: usize = b0;
    while i < hi
        invariant
            lo <= b0 <= i <= hi <= t.len(),
            s == t@.subrange(lo as int, hi as int),
            signed == (s.len() > 0 && (s[0] == 45 || s[0] == 43)),
            negative == (signed && s[0] == 45),
            body == t@.subrange(b0 as int, hi as int),
            body == (if signed {
                s.drop_first()
            } else {
                s
            }),
            body.len() > 0,
            acc == digits_value(t@.subrange(b0 as int, i as int)),
            all_digits(t@.subrange(b0 as int, i as int)),
            0 <= acc <= 2147483648,
        decreases hi - i,
    {
        let c = t[i];
        if c < 48 || c > 57 {
            assert(body[i - b0] == c);
            assert(!all_digits(body));
            return None;
        }
        proof {
            let next = t@.subrange(b0 as int, i + 1);
            assert(next.drop_last() =~= t@.subrange(b0 as int, i as int));
            assert(all_digits(next)) by {
                assert forall|j: int| 0 <= j < next.len() implies 48 <= #[trigger] next[j] <= 57 by {
                    if j < next.len() - 1 {
                        assert(next[j] == t@.subrange(b0 as int, i as int)[j]);
                    }
                }
            }
        }
        acc = acc * 10 + (c - 48) as i64;
        i += 1;
        if acc > 2147483648 {
            proof {
                if all_digits(body) {
                    lemma_digits_grow(body, i - b0);
                    assert(body.subrange(0, i - b0) =~= t@.subrange(b0 as int, i as int));
                }
            }
            return None;
        }
    }
    proof {
        assert(t@.subrange(b0 as int, i as int) =~= body);
    }
    let value: i64 = if negative {
        -acc
    } else {
        acc
    };
    if value < -2147483648 || value > 2147483647 {
        None
    } else {
        Some(value as i32)
    }
}

/// The tube written by the bytes from `lo` to `hi`.
fn tube_at(t: &[u8], lo: usize, hi: usize) -> (r: Result<Tube, InputError>)
    requires
        lo <= hi <= t.len(),
    ensures
        match r {
            Ok(tube) => tube_line(t@.subrange(lo as int, hi as int)) == Ok::<TubeView, InputError>(tube@),
            Err(e) => tube_line(t@.subrange(lo as int, hi as int)) == Err::<TubeView, InputError>(e),
        },
{
    let ghost s = t@.subrange(lo as int, hi as int);
    let mut i: usize = lo;
    while i < hi
        invariant
            lo <= i <= hi <= t.len(),
            s == t@.subrange(lo as int, hi as int),
            forall|j: int| 0 <= j < i - lo ==> #[trigger] s[j] < 128,
        decreases hi - i,
    {
        if t[i] >= 128 {
            assert(s[i - lo] >= 128);
            return Err(InputError::NonAscii);
        }
        i += 1;
    }
    if hi - lo != 4 {
        return Err(InputError::WrongWidth);
    }
    let mut k: usize = 0;
    while k < 4
        invariant
            k <= 4,
            hi == lo + 4 <= t.len(),
            s == t@.subrange(lo as int, hi as int),
            forall|j: int| 0 <= j < 4 ==> #[trigger] s[j] < 128,
            forall|j: int| 0 <= j < k ==> is_graphic(#[trigger] s[j]),
        decreases 4 - k,
    {
        let c = t[lo + k];
        if !(33 <= c && c <= 126) {
            assert(!is_graphic(s[k as int]));
            return Err(InputError::Unprintable);
        }
        k += 1;
    }
    let tube = Tube {
        balls: [
            Some(Ball { color: t[lo] }),
            Some(Ball { color: t[lo + 1] }),
            Some(Ball { color: t[lo + 2] }),
            Some(Ball { color: t[lo + 3] }),
        ],
    };
    assert(tube@ =~= seq![Some(Ball { color: s[0] }), Some(Ball { color: s[1] }), Some(Ball { color: s[2] }), Some(Ball { color: s[3] })]);
    Ok(tube)
}

/// The contents of each tube of `s`.
pub open spec fn views(s: Seq<Tube>) -> Seq<TubeView> {
    s.map_values(|tube: Tube| tube@)
}

/// What has been read so far; see `ReadState`.
struct Reader {
    full_read: bool,
    empty_read: bool,
    remaining: i32,
    empties: i32,
    tubes: Vec<Tube>,
}

impl Reader {
    spec fn state(&self) -> ReadState {
        (
            self.full_read,
            self.empty_read,
            self.remaining as int,
            self.empties as int,
            views(self.tubes@),
        )
    }

    /// Reads the trimmed line made of the bytes from `lo` to `hi`.
    fn line(&mut self, t: &[u8], lo: usize, hi: usize) -> (r: Result<(), InputError>)
        requires
            lo <= hi <= t.len(),
        ensures
            match read_line(old(self).state(), t@.subrange(lo as int, hi as int)) {
                Ok(st) => r is Ok && final(self).state() == st,
                Err(e) => r == Err::<(), InputError>(e),
            },
    {
        let ghost line = t@.subrange(lo as int, hi as int);
        if lo == hi || (hi - lo >= 2 && t[lo] == 47 && t[lo + 1] == 47) {
            return Ok(());
        }
        assert(line.len() > 0 && !is_comment(line));
        if !self.full_read {
            match parse_i32_at(t, lo, hi) {
                Some(n) => {
                    self.full_read = true;
                    self.remaining = n;
                    Ok(())
                },
                None => Err(InputError::BadFullCount),
            }
        } else if !self.empty_read {
            match parse_i32_at(t, lo, hi) {
                Some(m) => {
                    self.empty_read = true;
                    self.empties = m;
                    Ok(())
                },
                None => Err(InputError::BadEmptyCount),
            }
        } else if self.remaining > 0 {
            match tube_at(t, lo, hi) {
                Ok(tube) => {
                    let ghost before = self.tubes@;
                    self.remaining = self.remaining - 1;
                    self.tubes.push(tube);
                    assert(views(self.tubes@) =~= views(before).push(
                        tube@,
                    ));
                    Ok(())
                },
                Err(e) => Err(e),
            }
        } else {
            Err(InputError::UnexpectedLine)
        }
    }

    /// The board read, once the text has ended.
    fn finish(self) -> (r: Result<Game, InputError>)
        ensures
            r is Ok ==> validation(r->Ok_0@) == Ok::<(), ValidationError>(()),
            match r {
                Ok(game) => finish(self.state()) == Ok::<GameView, InputError>(game@),
                Err(e) => finish(self.state()) == Err::<GameView, InputError>(e),
            },
    {
        if !self.full_read || !self.empty_read {
            return Err(InputError::MissingHeader);
        }
        if self.remaining > 0 {
            return Err(InputError::MissingTubes);
        }
        let n: usize = if self.empties > 0 {
            self.empties as usize
        } else {
            0
        };
        let ghost full = views(self.tubes@);
        let ghost board = Seq::new(n as nat, |i: int| no_balls()) + full;
        if n > 13 || self.tubes.len() > 13 || n + self.tubes.len() > 13 {
            assert(board.len() > 13);
            return Err(InputError::Invalid(ValidationError::TooManyTubes));
        }
        let mut all: Vec<Tube> = Vec::new();
        let mut i: usize = 0;
        while i < n
            invariant
                i <= n,
                all.len() == i,
                views(all@) == Seq::new(i as nat, |j: int| no_balls()),
            decreases n - i,
        {
            let ghost before = all@;
            let e = Tube::empty();
            all.push(e);
            i += 1;
            assert forall|j: int| 0 <= j < i implies #[trigger] views(all@)[j] == no_balls() by {
                if j < i - 1 {
                    assert(all@[j] == before[j]);
                    assert(views(before)[j] == no_balls());
                }
            }
            assert(views(all@) =~= Seq::new(i as nat, |j: int| no_balls()));
        }
        let mut k: usize = 0;
        while k < self.tubes.len()
            invariant
                k <= self.tubes.len(),
                all.len() == n + k,
                full == views(self.tubes@),
                views(all@) == Seq::new(n as nat, |j: int| no_balls()) + full.subrange(
                    0,
                    k as int,
                ),
            decreases self.tubes.len() - k,
        {
            let ghost before = all@;
            all.push(self.tubes[k]);
            k += 1;
            assert forall|j: int| 0 <= j < all.len() implies #[trigger] views(all@)[j] == (Seq::new(
                n as nat,
                |j: int| no_balls(),
            ) + full.subrange(0, k as int))[j] by {
                if j < all.len() - 1 {
                    assert(all@[j] == before[j]);
                    assert(views(before)[j] == views(all@)[j]);
                }
            }
            assert(views(all@) =~= Seq::new(n as nat, |j: int| no_balls()) + full.subrange(
                0,
                k as int,
            ));
        }
        let game = Game { tubes: all };
        assert(full.subrange(0, full.len() as int) =~= full);
        assert(game@ =~= board);
        match game.validate() {
            Ok(()) => Ok(game),
            Err(e) => Err(InputError::Invalid(e)),
        }
    }
}

impl Game {
    /// Reads a board from text; see the module documentation for the format. The board read
    /// also follows the rules of `Game::validate`.
    pub fn from_input(input: &[u8]) -> (r: Result<Game, InputError>)
        ensures
            r is Ok ==> validation(r->Ok_0@) == Ok::<(), ValidationError>(()),
            match r {
                Ok(game) => read_board(input@) == Ok::<GameView, InputError>(game@),
                Err(e) => read_board(input@) == Err::<GameView, InputError>(e),
            },
    {
        let mut reader = Reader { full_read: false, empty_read: false, remaining: 0, empties: 0, tubes: Vec::new() };
        proof {
            assert(reader.state() =~= (false, false, 0int, 0int, Seq::<TubeView>::empty()));
        }
        let mut start: usize = 0;
        let mut i: usize = 0;
        while i < input.len()
            invariant
                start <= i <= input.len(),
                read_from(input@, start as int, i as int, reader.state()) == read_board(input@),
            decreases input.len() - i,
        {
            if input[i] == 10 {
                let (lo, hi) = trim_bounds(input, start, i);
                let step = reader.line(input, lo, hi);
                if let Err(e) = step {
                    return Err(e);
                }
                start = i + 1;
            }
            i += 1;
        }
        if start < input.len() {
            let (lo, hi) = trim_bounds(input, start, input.len());
            let step = reader.line(input, lo, hi);
            if let Err(e) = step {
                return Err(e);
            }
        }
        reader.finish()
    }
}

} // verus!
