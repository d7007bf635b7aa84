//! Product ids whose digits are a pattern written several times over, and
//! the sum of such ids in ranges of ids.

use crate::sums::sum_to;
use crate::text::{
    chars_of, copy_range, find_from, next_index, parse_unsigned, split_at_first, split_once,
    unsigned_of, lemma_next_index,
};
use std::ops::RangeInclusive;
use vstd::prelude::*;
use vstd::std_specs::cmp::PartialEqSpec;

verus! {

/// The digits of `number` in base ten, the highest first. Zero has no
/// digits.
pub open spec fn digits_of(number: nat) -> Seq<u8>
    decreases number,
{
    if number == 0 {
        Seq::empty()
    } else {
        digits_of(number / 10).push((number % 10) as u8)
    }
}

/// Turns a number into its digits, the highest first. Zero has no digits.
pub fn to_digits(number: u64) -> (digits: Vec<u8>)
    ensures
        digits@ == digits_of(number as nat),
{
    let mut number = number;
    let ghost whole = number;
    let mut low_first: Vec<u8> = Vec::new();
    while number > 0
        invariant
            digits_of(whole as nat) == digits_of(number as nat) + low_first@.reverse(),
        decreases number,
    {
        let ghost before = low_first@;
        low_first.push((number % 10) as u8);
        proof {
            assert(low_first@.reverse() =~= seq![(number % 10) as u8] + before.reverse());
            assert(digits_of(number as nat) == digits_of((number / 10) as nat).push(
                (number % 10) as u8,
            ));
            assert(digits_of((number / 10) as nat).push((number % 10) as u8) + before.reverse()
                =~= digits_of((number / 10) as nat) + low_first@.reverse());
        }
        number /= 10;
    }
    assert(digits_of(0) + low_first@.reverse() =~= low_first@.reverse());
    let mut digits: Vec<u8> = Vec::new();
    let mut i: usize = low_first.len();
    while i > 0
        invariant
            i <= low_first.len(),
            digits@ == low_first@.reverse().take(low_first.len() - i),
        decreases i,
    {
        i -= 1;
        digits.push(low_first[i]);
        assert(digits@ =~= low_first@.reverse().take(low_first.len() - i));
    }
    assert(low_first@.reverse().take(low_first.len() as int) =~= low_first@.reverse());
    digits
}

/// Whether `s` is its first `length` items written several times over, or
/// once.
pub open spec fn repeats<T: PartialEq>(s: Seq<T>, length: int) -> bool {
    &&& length > 0
    &&& s.len() as int % length == 0
    &&& forall|i: int| length <= i < s.len() ==> (#[trigger] s[i]).eq_spec(&s[i % length])
}

/// Checks whether a slice is made up of repetitions of its first
/// `sequence_length` items, and returns those items if so.
pub fn detect_repetition_of_length<T: PartialEq>(slice: &[T], sequence_length: usize) -> (out:
    Option<&[T]>)
    requires
        T::obeys_eq_spec(),
        sequence_length == 0 || slice.len() > 0,
    ensures
        out is Some <==> repeats(slice@, sequence_length as int),
        out matches Some(pattern) ==> pattern@ == slice@.subrange(0, sequence_length as int),
{
    let slice_length = slice.len();
    if sequence_length == 0 || slice_length % sequence_length != 0 {
        return None;
    }
    assert(sequence_length <= slice_length) by (nonlinear_arith)
        requires
            slice_length > 0,
            sequence_length > 0,
            slice_length as int % sequence_length as int == 0,
    ;
    let mut i: usize = sequence_length;
    while i < slice_length
        invariant
            0 < sequence_length <= i <= slice_length == slice.len(),
            T::obeys_eq_spec(),
            forall|k: int|
                sequence_length <= k < i ==> (#[trigger] slice@[k]).eq_spec(
                    &slice@[k % sequence_length as int],
                ),
        decreases slice_length - i,
    {
        if slice[i] != slice[i % sequence_length] {
            return None;
        }
        i += 1;
    }
    Some(&slice[0..sequence_length])
}

/// The lengths from 1 to `upto` in which `s` repeats, in ascending order.
pub open spec fn repeat_lengths<T: PartialEq>(s: Seq<T>, upto: int) -> Seq<int>
    decreases upto,
{
    if upto <= 0 {
        Seq::empty()
    } else if repeats(s, upto) {
        repeat_lengths(s, upto - 1).push(upto)
    } else {
        repeat_lengths(s, upto - 1)
    }
}

/// Detects all patterns of which the slice is made up, each with its
/// length: `[1, 1, 1, 1]` is made up of `[1]` and of `[1, 1]`. The slice
/// itself is not among them.
pub fn detect_repetition<T: PartialEq>(slice: &[T]) -> (out: Vec<(&[T], usize)>)
    requires
        T::obeys_eq_spec(),
    ensures
        out@.len() == repeat_lengths(slice@, slice@.len() as int / 2).len(),
        forall|i: int|
            0 <= i < out@.len() ==> (#[trigger] out@[i]).1 == repeat_lengths(
                slice@,
                slice@.len() as int / 2,
            )[i] && out@[i].0@ == slice@.subrange(0, out@[i].1 as int),
{
    let longest = slice.len() / 2;
    let mut out: Vec<(&[T], usize)> = Vec::new();
    let mut length: usize = 0;
    while length < longest
        invariant
            length <= longest == slice.len() / 2,
            T::obeys_eq_spec(),
            out@.len() == repeat_lengths(slice@, length as int).len(),
            forall|i: int|
                0 <= i < out@.len() ==> (#[trigger] out@[i]).1 == repeat_lengths(slice@, length as int)[i]
                    && out@[i].0@ == slice@.subrange(0, out@[i].1 as int),
        decreases longest - length,
    {
        length += 1;
        match detect_repetition_of_length(slice, length) {
            Some(pattern) => {
                out.push((pattern, length));
            },
            None => {},
        }
    }
    out
}

/// Whether the digits of `id` are a pattern written twice.
pub open spec fn is_doubled(id: nat) -> bool {
    digits_of(id).len() % 2 == 0 && repeats(digits_of(id), digits_of(id).len() as int / 2)
}

/// Whether the digits of `id` are a pattern written twice or more often.
pub open spec fn is_repeated(id: nat) -> bool {
    repeat_lengths(digits_of(id), digits_of(id).len() as int / 2).len() > 0
}

/// A range of product ids, both ends included.
#[derive(Debug, Clone)]
pub struct ProductIdRange {
    start: u64,
    end: u64,
}

impl View for ProductIdRange {
    type V = (nat, nat);

    closed spec fn view(&self) -> (nat, nat) {
        (self.start as nat, self.end as nat)
    }
}

/// The range that `start-end` writes.
pub open spec fn id_range_of(s: Seq<char>) -> Option<(nat, nat)> {
    match split_at_first(s, '-') {
        Some((start, end)) => match (unsigned_of(start), unsigned_of(end)) {
            (Some(a), Some(b)) => if a <= u64::MAX && b <= u64::MAX {
                Some((a, b))
            } else {
                None
            },
            _ => None,
        },
        None => None,
    }
}

impl ProductIdRange {
    /// The range from `start` to `end`, both included.
    pub fn new(start: u64, end: u64) -> (range: ProductIdRange)
        ensures
            range@ == (start as nat, end as nat),
    {
        ProductIdRange { start, end }
    }

    /// Reads a range written as `start-end`.
    pub fn parse(text: &str) -> (out: Option<ProductIdRange>)
        ensures
            match id_range_of(text@) {
                Some(range) => out matches Some(r) && r@ == range,
                None => out is None,
            },
    {
        let chars = chars_of(text);
        Self::from_chars(&chars)
    }

    /// Reads a range from the characters of `start-end`.
    fn from_chars(s: &Vec<char>) -> (out: Option<ProductIdRange>)
        ensures
            match id_range_of(s@) {
                Some(range) => out matches Some(r) && r@ == range,
                None => out is None,
            },
    {
        match split_once(s, '-') {
            Some((start, end)) => {
                match (parse_unsigned(&start, u64::MAX), parse_unsigned(&end, u64::MAX)) {
                    (Some(start), Some(end)) => Some(ProductIdRange { start, end }),
                    _ => None,
                }
            },
            None => None,
        }
    }

    /// The first id of the range.
    pub fn start(&self) -> (id: u64)
        ensures
            id == self@.0,
    {
        self.start
    }

    /// The last id of the range.
    pub fn end(&self) -> (id: u64)
        ensures
            id == self@.1,
    {
        self.end
    }

    /// The ids of the range, in ascending order.
    pub fn iter(&self) -> (ids: RangeInclusive<u64>)
        ensures
            ids@.start == self@.0,
            ids@.end == self@.1,
            !ids@.exhausted,
    {
        RangeInclusive::new(self.start, self.end)
    }
}

/// Whether an id is to be added up: whether its digits are a pattern written
/// twice or, with `any`, twice or more often.
pub open spec fn is_invalid(any: bool, id: nat) -> bool {
    if any {
        is_repeated(id)
    } else {
        is_doubled(id)
    }
}

/// The sum of the invalid ids from `start` up to `bound`, which is left out.
pub open spec fn invalid_below(any: bool, start: nat, bound: int) -> nat {
    sum_to(
        |id: int|
            if start <= id && is_invalid(any, id as nat) {
                id as nat
            } else {
                0nat
            },
        bound,
    )
}

/// The sum of the invalid ids from `start` to `end`.
pub open spec fn range_sum(any: bool, start: nat, end: nat) -> nat {
    invalid_below(any, start, end as int + 1)
}

/// The sum of the invalid ids in the first `n` of the `ranges`. An id that
/// lies in several ranges is added once for each.
pub open spec fn ranges_sum(any: bool, ranges: Seq<(nat, nat)>, n: int) -> nat
    decreases n,
{
    if n <= 0 {
        0
    } else {
        ranges_sum(any, ranges, n - 1) + range_sum(any, ranges[n - 1].0, ranges[n - 1].1)
    }
}

/// The parts of `s` between its commas, from index `from` on.
pub open spec fn parts_from(s: Seq<char>, from: int) -> Seq<Seq<char>>
    decreases s.len() - from,
{
    let to = next_index(s, ',', from);
    if 0 <= from <= to < s.len() {
        seq![s.subrange(from, to)] + parts_from(s, to + 1)
    } else {
        seq![s.subrange(from, s.len() as int)]
    }
}

/// The ranges that a text writes, with commas between them.
pub open spec fn id_ranges_of(text: Seq<char>) -> Option<Seq<(nat, nat)>> {
    let parts = parts_from(text, 0);
    if forall|i: int| 0 <= i < parts.len() ==> id_range_of(#[trigger] parts[i]) is Some {
        Some(Seq::new(parts.len(), |i: int| id_range_of(parts[i])->0))
    } else {
        None
    }
}

/// Ranges of product ids.
#[derive(Debug, Clone)]
pub struct ProductIdRangeList(Vec<ProductIdRange>);

impl View for ProductIdRangeList {
    type V = Seq<(nat, nat)>;

    closed spec fn view(&self) -> Seq<(nat, nat)> {
        Seq::new(self.0@.len(), |i: int| self.0@[i]@)
    }
}

/// Whether the digits of `id` are a pattern written twice.
fn has_doubled_digits(id: u64) -> (b: bool)
    ensures
        b == is_doubled(id as nat),
{
    let digits = to_digits(id);
    if digits.len() % 2 != 0 {
        return false;
    }
    detect_repetition_of_length(digits.as_slice(), digits.len() / 2).is_some()
}

/// Whether the digits of `id` are a pattern written twice or more often.
fn has_repeated_digits(id: u64) -> (b: bool)
    ensures
        b == is_repeated(id as nat),
{
    let digits = to_digits(id);
    detect_repetition(digits.as_slice()).len() > 0
}

/// A sum over a longer stretch of ids is no smaller.
proof fn lemma_invalid_below_grows(any: bool, start: nat, bound: int, last: int)
    requires
        bound <= last,
    ensures
        invalid_below(any, start, bound) <= invalid_below(any, start, last),
    decreases last - bound,
{
    if bound < last {
        lemma_invalid_below_grows(any, start, bound, last - 1);
    }
}

/// A sum over more ranges is no smaller.
proof fn lemma_ranges_sum_grows(any: bool, ranges: Seq<(nat, nat)>, n: int, m: int)
    requires
        n <= m,
    ensures
        ranges_sum(any, ranges, n) <= ranges_sum(any, ranges, m),
    decreases m - n,
{
    if n < m {
        lemma_ranges_sum_grows(any, ranges, n, m - 1);
    }
}

/// No id from `start` on lies below `start`.
proof fn lemma_invalid_below_start(any: bool, start: nat, bound: int)
    requires
        bound <= start,
    ensures
        invalid_below(any, start, bound) == 0,
{
    crate::sums::lemma_sum_zero(
        |id: int|
            if start <= id && is_invalid(any, id as nat) {
                id as nat
            } else {
                0nat
            },
        bound,
    );
}

/// Whether an id is to be added up.
fn has_invalid_digits(any: bool, id: u64) -> (b: bool)
    ensures
        b == is_invalid(any, id as nat),
{
    if any {
        has_repeated_digits(id)
    } else {
        has_doubled_digits(id)
    }
}

/// Adds the invalid ids from `start` to `end` to `base`, unless the sum
/// is too large for the machine.
fn add_invalid_ids(any: bool, start: u64, end: u64, base: u64) -> (out: Option<u64>)
    ensures
        out == if base + range_sum(any, start as nat, end as nat) <= u64::MAX {
            Some((base + range_sum(any, start as nat, end as nat)) as u64)
        } else {
            None
        },
{
    if start > end {
        proof {
            lemma_invalid_below_start(any, start as nat, end + 1);
        }
        return Some(base);
    }
    let mut sum: u64 = base;
    let mut id: u64 = start;
    proof {
        lemma_invalid_below_start(any, start as nat, start as int);
    }
    loop
        invariant_except_break
            sum == base + invalid_below(any, start as nat, id as int),
        invariant
            start <= id <= end,
        ensures
            sum == base + range_sum(any, start as nat, end as nat),
        decreases end - id,
    {
        proof {
            lemma_invalid_below_grows(any, start as nat, id + 1, end + 1);
        }
        if has_invalid_digits(any, id) {
            sum = match sum.checked_add(id) {
                Some(more) => more,
                None => {
                    return None;
                },
            };
        }
        if id == end {
            break;
        }
        id += 1;
    }
    Some(sum)
}

impl ProductIdRangeList {
    /// The list of the given ranges.
    pub fn new(ranges: Vec<ProductIdRange>) -> (list: ProductIdRangeList)
        ensures
            list@ == Seq::new(ranges@.len(), |i: int| ranges@[i]@),
    {
        ProductIdRangeList(ranges)
    }

    /// The number of ranges.
    pub fn len(&self) -> (n: usize)
        ensures
            n == self@.len(),
    {
        self.0.len()
    }

    /// Reads ranges `start-end` with commas between them. Returns `None`
    /// for any other text.
    pub fn parse(text: &str) -> (out: Option<ProductIdRangeList>)
        ensures
            match id_ranges_of(text@) {
                Some(ranges) => out matches Some(list) && list@ == ranges,
                None => out is None,
            },
    {
        let chars = chars_of(text);
        let ghost parts = parts_from(text@, 0);
        let mut ranges: Vec<ProductIdRange> = Vec::new();
        let ghost mut seen: Seq<Seq<char>> = Seq::empty();
        let mut from: usize = 0;
        assert(seen + parts_from(text@, 0) =~= parts);
        loop
            invariant_except_break
                seen + parts_from(text@, from as int) == parts,
            invariant
                from <= chars.len(),
                chars@ == text@,
                parts == parts_from(text@, 0),
                ranges.len() == seen.len(),
                forall|k: int| 0 <= k < seen.len() ==> id_range_of(#[trigger] seen[k]) == Some(ranges[k]@),
            ensures
                seen == parts,
            decreases chars.len() - from,
        {
            let to = find_from(&chars, ',', from);
            let part = copy_range(&chars, from, to);
            proof {
                lemma_next_index(text@, ',', from as int);
                assert(parts_from(text@, from as int)[0] == part@);
                assert(parts[seen.len() as int] == part@);
            }
            match ProductIdRange::from_chars(&part) {
                Some(range) => {
                    ranges.push(range);
                },
                None => {
                    return None;
                },
            }
            proof {
                let rest = if to < chars.len() {
                    parts_from(text@, to + 1)
                } else {
                    Seq::empty()
                };
                assert(seen.push(part@) + rest =~= seen + parts_from(text@, from as int));
                seen = seen.push(part@);
                assert(seen + Seq::<Seq<char>>::empty() =~= seen);
            }
            if to >= chars.len() {
                break;
            }
            from = to + 1;
        }
        let list = ProductIdRangeList(ranges);
        proof {
            assert(list@ =~= id_ranges_of(text@)->0);
        }
        Some(list)
    }

    /// The sum of the invalid ids in the ranges, or `None` if it is too
    /// large for the machine.
    fn sum_invalid_ids(&self, any: bool) -> (out: Option<u64>)
        ensures
            out == if ranges_sum(any, self@, self@.len() as int) <= u64::MAX {
                Some(ranges_sum(any, self@, self@.len() as int) as u64)
            } else {
                None
            },
    {
        let mut sum: u64 = 0;
        let mut i: usize = 0;
        while i < self.0.len()
            invariant
                i <= self.0.len() == self@.len(),
                sum == ranges_sum(any, self@, i as int),
            decreases self.0.len() - i,
        {
            assert(self@[i as int] == self.0[i as int]@);
            proof {
                lemma_ranges_sum_grows(any, self@, i + 1, self@.len() as int);
            }
            sum = match add_invalid_ids(any, self.0[i].start, self.0[i].end, sum) {
                Some(more) => more,
                None => {
                    return None;
                },
            };
            i += 1;
        }
        Some(sum)
    }

    /// The sum of the ids in the ranges whose digits are a pattern written
    /// twice. An id that lies in several ranges is added once for each.
    /// Returns `None` if the sum is too large for the machine.
    pub fn sum_twice_invalid_ids(&self) -> (out: Option<u64>)
        ensures
            out == if ranges_sum(false, self@, self@.len() as int) <= u64::MAX {
                Some(ranges_sum(false, self@, self@.len() as int) as u64)
            } else {
                None
            },
    {
        self.sum_invalid_ids(false)
    }

    /// The sum of the ids in the ranges whose digits are a pattern written
    /// twice or more often. An id that lies in several ranges is added once
    /// for each. Returns `None` if the sum is too large for the machine.
    pub fn sum_any_invalid_ids(&self) -> (out: Option<u64>)
        ensures
            out == if ranges_sum(true, self@, self@.len() as int) <= u64::MAX {
                Some(ranges_sum(true, self@, self@.len() as int) as u64)
            } else {
                None
            },
    {
        self.sum_invalid_ids(true)
    }
}

} // verus!
