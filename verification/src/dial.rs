//! A dial with the positions 0 to 99 that is turned click by click, and the
//! number of times that it points at 0.

use crate::sums::sum_to;
use crate::text::{chars_of, copy_range, lines_of, parse_signed, row_views, signed_of, split_lines};
use vstd::arithmetic::div_mod::{lemma_fundamental_div_mod, lemma_fundamental_div_mod_converse_mod};
use vstd::prelude::*;

verus! {

/// One turn of the dial by a number of clicks. A turn to the left raises the
/// position, a turn to the right lowers it.
#[derive(Debug, Clone, Copy, PartialEq, Eq)]
pub enum Rotation {
    Left(i16),
    Right(i16),
}

impl Rotation {
    /// The number of clicks of the turn.
    pub open spec fn clicks(self) -> int {
        match self {
            Rotation::Left(value) => value as int,
            Rotation::Right(value) => value as int,
        }
    }

    /// What one click adds to the position.
    pub open spec fn direction(self) -> int {
        match self {
            Rotation::Left(_) => 1,
            Rotation::Right(_) => -1,
        }
    }

    /// What the turn adds to the position.
    pub open spec fn signed(self) -> int {
        self.direction() * self.clicks()
    }

    /// What the turn adds to the position.
    pub fn as_signed_int(&self) -> (out: i16)
        requires
            self.clicks() > i16::MIN,
        ensures
            out == self.signed(),
    {
        match *self {
            Rotation::Left(value) => value,
            Rotation::Right(value) => -value,
        }
    }
}

/// The number in `min..=max` that differs from `number` by a multiple of the
/// size of that range.
pub open spec fn wrapped(number: int, min: int, max: int) -> int {
    min + (number - min) % (max - min + 1)
}

/// The remainder of a negative number, from the remainder of its opposite.
proof fn lemma_mod_of_negative(a: int, b: int)
    requires
        a < 0 < b,
    ensures
        a % b == if (-a) % b == 0 {
            0
        } else {
            b - (-a) % b
        },
{
    let m = (-a) % b;
    let q = (-a) / b;
    lemma_fundamental_div_mod(-a, b);
    vstd::arithmetic::div_mod::lemma_mod_pos_bound(-a, b);
    if m == 0 {
        assert(a == (-q) * b + 0) by (nonlinear_arith)
            requires
                -a == b * q + m,
                m == 0,
        ;
        lemma_fundamental_div_mod_converse_mod(a, b, -q, 0);
    } else {
        assert(a == (-q - 1) * b + (b - m)) by (nonlinear_arith)
            requires
                -a == b * q + m,
        ;
        lemma_fundamental_div_mod_converse_mod(a, b, -q - 1, b - m);
    }
}

/// Wraps a number into the range `min..=max`: 245 wrapped into `0..=99` is
/// 45, and -1 is 99.
pub fn wrap_number(number: i16, min: i16, max: i16) -> (out: i16)
    requires
        min <= max,
    ensures
        out == wrapped(number as int, min as int, max as int),
        min <= out <= max,
{
    let range: i32 = max as i32 - min as i32 + 1;
    let offset: i32 = number as i32 - min as i32;
    let mut result: i32 = offset % range;
    proof {
        if offset < 0 {
            lemma_mod_of_negative(offset as int, range as int);
            vstd::arithmetic::div_mod::lemma_mod_pos_bound(-offset as int, range as int);
        } else {
            vstd::arithmetic::div_mod::lemma_mod_pos_bound(offset as int, range as int);
        }
    }
    if result < 0 {
        result += range;
    }
    (result + min as i32) as i16
}

/// The position of the dial after the first `n` of the turns. It starts at
/// 50.
pub open spec fn position(turns: Seq<Rotation>, n: int) -> int
    decreases n,
{
    if n <= 0 {
        50
    } else {
        (position(turns, n - 1) + turns[n - 1].signed()) % 100
    }
}

/// The number of the first `n` turns after which the dial points at 0.
pub open spec fn stops_at_zero(turns: Seq<Rotation>, n: int) -> nat {
    sum_to(
        |k: int|
            if position(turns, k + 1) == 0 {
                1nat
            } else {
                0nat
            },
        n,
    )
}

/// The number of the first `n` clicks of a turn after which the dial
/// points at 0, when the turn begins at `from`.
pub open spec fn zero_clicks(from: int, turn: Rotation, n: int) -> nat {
    sum_to(
        |j: int|
            if (from + turn.direction() * (j + 1)) % 100 == 0 {
                1nat
            } else {
                0nat
            },
        n,
    )
}

/// The number of clicks after which the dial points at 0, in the first `n`
/// of the turns.
pub open spec fn clicks_at_zero(turns: Seq<Rotation>, n: int) -> nat
    decreases n,
{
    if n <= 0 {
        0
    } else {
        clicks_at_zero(turns, n - 1) + zero_clicks(
            position(turns, n - 1),
            turns[n - 1],
            turns[n - 1].clicks(),
        )
    }
}

/// The turn that a line writes: `L` or `R` and the number of clicks.
pub open spec fn rotation_of(line: Seq<char>) -> Option<Rotation> {
    if line.len() == 0 {
        None
    } else {
        match signed_of(line.subrange(1, line.len() as int)) {
            Some(v) => if 0 <= v <= i16::MAX {
                if line[0] == 'R' {
                    Some(Rotation::Right(v as i16))
                } else if line[0] == 'L' {
                    Some(Rotation::Left(v as i16))
                } else {
                    None
                }
            } else {
                None
            },
            None => None,
        }
    }
}

/// The turns that a text writes, one a line.
pub open spec fn rotations_of(text: Seq<char>) -> Option<Seq<Rotation>> {
    let lines = lines_of(text);
    if forall|i: int| 0 <= i < lines.len() ==> rotation_of(#[trigger] lines[i]) is Some {
        Some(Seq::new(lines.len(), |i: int| rotation_of(lines[i])->0))
    } else {
        None
    }
}

/// Reads a line as a turn.
fn parse_rotation(line: &Vec<char>) -> (out: Option<Rotation>)
    ensures
        out == rotation_of(line@),
{
    if line.len() == 0 {
        return None;
    }
    let amount = copy_range(line, 1, line.len());
    match parse_signed(&amount, 32767) {
        Some(v) => {
            if v < 0 {
                None
            } else if line[0] == 'R' {
                Some(Rotation::Right(v as i16))
            } else if line[0] == 'L' {
                Some(Rotation::Left(v as i16))
            } else {
                None
            }
        },
        None => None,
    }
}

/// Turns of the dial, in the order in which they are made.
#[derive(Debug, Clone)]
pub struct RotationSequence(Vec<Rotation>);

impl View for RotationSequence {
    type V = Seq<Rotation>;

    closed spec fn view(&self) -> Seq<Rotation> {
        self.0@
    }
}

impl RotationSequence {
    /// No turn has a negative number of clicks.
    pub open spec fn wf(&self) -> bool {
        forall|i: int| 0 <= i < self@.len() ==> (#[trigger] self@[i]).clicks() >= 0
    }

    /// The sequence of the given turns, unless one has a negative number of
    /// clicks.
    pub fn new(turns: Vec<Rotation>) -> (out: Option<RotationSequence>)
        ensures
            out is Some <==> forall|i: int| 0 <= i < turns.len() ==> (#[trigger] turns[i]).clicks() >= 0,
            out matches Some(sequence) ==> sequence.wf() && sequence@ == turns@,
    {
        let mut i: usize = 0;
        while i < turns.len()
            invariant
                i <= turns.len(),
                forall|k: int| 0 <= k < i ==> (#[trigger] turns[k]).clicks() >= 0,
            decreases turns.len() - i,
        {
            let negative = match turns[i] {
                Rotation::Left(value) => value < 0,
                Rotation::Right(value) => value < 0,
            };
            if negative {
                return None;
            }
            i += 1;
        }
        Some(RotationSequence(turns))
    }

    /// The turns, in their order.
    pub fn turns(&self) -> (out: &Vec<Rotation>)
        ensures
            out@ == self@,
    {
        &self.0
    }

    /// Reads turns from text, one a line. Returns `None` if a line is no
    /// turn.
    pub fn parse(text: &str) -> (out: Option<RotationSequence>)
        ensures
            match rotations_of(text@) {
                Some(turns) => out matches Some(sequence) && sequence.wf() && sequence@ == turns,
                None => out is None,
            },
    {
        let chars = chars_of(text);
        let lines = split_lines(&chars);
        let ghost texts = lines_of(text@);
        let mut turns: Vec<Rotation> = Vec::new();
        let mut i: usize = 0;
        while i < lines.len()
            invariant
                i <= lines.len(),
                texts == lines_of(text@),
                texts == row_views(lines@),
                turns.len() == i,
                forall|k: int| 0 <= k < i ==> rotation_of(#[trigger] texts[k]) == Some(turns[k]),
            decreases lines.len() - i,
        {
            assert(texts[i as int] == lines[i as int]@);
            match parse_rotation(&lines[i]) {
                Some(turn) => {
                    turns.push(turn);
                },
                None => {
                    return None;
                },
            }
            i += 1;
        }
        assert(turns@ =~= rotations_of(text@)->0);
        Some(RotationSequence(turns))
    }

    /// The number of turns after which the dial points at 0.
    pub fn get_full_rotation_zero_count(&self) -> (count: usize)
        requires
            self.wf(),
        ensures
            count == stops_at_zero(self@, self@.len() as int),
    {
        let mut current: i16 = 50;
        let mut count: usize = 0;
        let mut i: usize = 0;
        while i < self.0.len()
            invariant
                i <= self.0.len(),
                self.wf(),
                0 <= current <= 99,
                current == position(self@, i as int),
                count == stops_at_zero(self@, i as int),
                count <= i,
            decreases self.0.len() - i,
        {
            let turn = self.0[i];
            assert(self@[i as int].clicks() >= 0);
            let step = wrap_number(turn.as_signed_int(), 0, 99);
            current = wrap_number(current + step, 0, 99);
            assert(current == position(self@, i + 1)) by {
                vstd::arithmetic::div_mod::lemma_add_mod_noop_right(
                    position(self@, i as int),
                    turn.signed(),
                    100,
                );
            }
            if current == 0 {
                count += 1;
            }
            i += 1;
        }
        count
    }

    /// The number of clicks after which the dial points at 0, or `None` if
    /// that number is too large for the machine.
    pub fn get_partial_rotation_zero_count(&self) -> (out: Option<usize>)
        requires
            self.wf(),
        ensures
            out == if clicks_at_zero(self@, self@.len() as int) <= usize::MAX {
                Some(clicks_at_zero(self@, self@.len() as int) as usize)
            } else {
                None
            },
    {
        let mut current: i16 = 50;
        let mut count: usize = 0;
        let mut i: usize = 0;
        while i < self.0.len()
            invariant
                i <= self.0.len(),
                self.wf(),
                0 <= current <= 99,
                current == position(self@, i as int),
                count == clicks_at_zero(self@, i as int),
            decreases self.0.len() - i,
        {
            let turn = self.0[i];
            assert(self@[i as int].clicks() >= 0);
            let (by, amount): (i16, i16) = match turn {
                Rotation::Left(value) => (1, value),
                Rotation::Right(value) => (-1, value),
            };
            let ghost from = current as int;
            let mut done: i16 = 0;
            let mut here: u16 = 0;
            while done < amount
                invariant
                    0 <= done <= amount == turn.clicks(),
                    by == turn.direction(),
                    0 <= current <= 99,
                    0 <= from <= 99,
                    current == (from + by * done) % 100,
                    here == zero_clicks(from, turn, done as int),
                    here <= done,
                decreases amount - done,
            {
                let ghost before = from + by * done;
                current = wrap_number(current + by, 0, 99);
                done += 1;
                assert(from + by * done == before + by) by (nonlinear_arith)
                    requires
                        before == from + by * (done - 1),
                ;
                assert(current == (from + by * done) % 100) by {
                    vstd::arithmetic::div_mod::lemma_add_mod_noop_right(by as int, before, 100);
                }
                if current == 0 {
                    here += 1;
                }
            }
            assert(current == position(self@, i + 1));
            match count.checked_add(here as usize) {
                Some(sum) => {
                    count = sum;
                },
                None => {
                    proof {
                        lemma_clicks_at_zero_grow(self@, i + 1, self@.len() as int);
                    }
                    return None;
                },
            }
            i += 1;
        }
        Some(count)
    }
}

/// More turns, no fewer clicks at 0.
proof fn lemma_clicks_at_zero_grow(turns: Seq<Rotation>, n: int, m: int)
    requires
        n <= m,
    ensures
        clicks_at_zero(turns, n) <= clicks_at_zero(turns, m),
    decreases m - n,
{
    if n < m {
        lemma_clicks_at_zero_grow(turns, n, m - 1);
    }
}

} // verus!
