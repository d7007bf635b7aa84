//! An inventory of ingredients: ranges of ids that are fresh, and the ids of
//! the ingredients at hand.

use crate::sums::{lemma_sum_agree, lemma_sum_zero, sum_to};
use crate::text::{
    chars_of, copy_range, lines_of, parse_unsigned, row_views, split_at_first, split_lines,
    split_once, unsigned_of,
};
use vstd::prelude::*;

verus! {

/// Whether `id` lies in `range`, both ends included. A range whose end is
/// below its start holds no id.
pub open spec fn in_range(id: int, range: (usize, usize)) -> bool {
    range.0 <= id <= range.1
}

/// Whether `id` lies in one of the `ranges`.
pub open spec fn covered(ranges: Seq<(usize, usize)>, id: int) -> bool {
    exists|i: int| 0 <= i < ranges.len() && in_range(id, #[trigger] ranges[i])
}

/// 1 if `id` lies in one of the `ranges`, else 0.
pub open spec fn one_if_covered(ranges: Seq<(usize, usize)>, id: int) -> nat {
    if covered(ranges, id) {
        1
    } else {
        0
    }
}

/// The number of ids below `bound` that lie in one of the `ranges`.
pub open spec fn covered_below(ranges: Seq<(usize, usize)>, bound: int) -> nat {
    sum_to(|id: int| one_if_covered(ranges, id), bound)
}

/// The number of ids that lie in one of the `ranges`, an id that lies in
/// several of them counting once.
pub open spec fn fresh_count(ranges: Seq<(usize, usize)>) -> nat {
    covered_below(ranges, usize::MAX + 1)
}

/// The ids of `ids` that lie in one of the `ranges`, in their order.
pub open spec fn fresh_among(ranges: Seq<(usize, usize)>, ids: Seq<usize>) -> Seq<usize> {
    ids.filter(|id: usize| covered(ranges, id as int))
}

/// The range that a line `start-end` writes.
pub open spec fn range_of(line: Seq<char>) -> Option<(usize, usize)> {
    match split_at_first(line, '-') {
        Some((start, end)) => match (unsigned_of(start), unsigned_of(end)) {
            (Some(s), Some(e)) => if s <= usize::MAX && e < usize::MAX {
                Some((s as usize, e as usize))
            } else {
                None
            },
            _ => None,
        },
        None => None,
    }
}

/// The id that a line writes.
pub open spec fn id_of(line: Seq<char>) -> Option<usize> {
    match unsigned_of(line) {
        Some(v) => if v <= usize::MAX {
            Some(v as usize)
        } else {
            None
        },
        None => None,
    }
}

/// Index of the first of two line feeds in a row at or after `from`, or
/// `s.len()` if there are none.
pub open spec fn gap_from(s: Seq<char>, from: int) -> int
    decreases s.len() - from,
{
    if from < 0 || from >= s.len() {
        s.len() as int
    } else if from + 1 < s.len() && s[from] == '\n' && s[from + 1] == '\n' {
        from
    } else {
        gap_from(s, from + 1)
    }
}

/// What a text says: the lines before the first empty line are ranges, the
/// lines behind it are ids.
pub open spec fn listed(text: Seq<char>) -> Option<(Seq<(usize, usize)>, Seq<usize>)> {
    let gap = gap_from(text, 0);
    let ranges = lines_of(text.subrange(0, gap));
    let ids = lines_of(text.subrange(gap + 2, text.len() as int));
    if gap < text.len() && (forall|i: int| 0 <= i < ranges.len() ==> range_of(#[trigger] ranges[i]) is Some)
        && (forall|i: int| 0 <= i < ids.len() ==> id_of(#[trigger] ids[i]) is Some) {
        Some(
            (
                Seq::new(ranges.len(), |i: int| range_of(ranges[i])->0),
                Seq::new(ids.len(), |i: int| id_of(ids[i])->0),
            ),
        )
    } else {
        None
    }
}

/// Ranges of fresh ids and the ids of the ingredients at hand.
#[derive(Debug, Clone)]
pub struct Inventory {
    fresh_ranges: Vec<(usize, usize)>,
    available_ingredients: Vec<usize>,
}

/// `<[T]>::sort_by_key` with the start of a range as the key: the ranges are
/// put in a new order in which their starts ascend. No range is added,
/// dropped or changed.
#[verifier::external_body]
fn sort_by_start(ranges: &mut Vec<(usize, usize)>)
    ensures
        final(ranges)@.to_multiset() == old(ranges)@.to_multiset(),
        forall|i: int, j: int|
            0 <= i <= j < final(ranges)@.len() ==> final(ranges)@[i].0 <= final(ranges)@[j].0,
{
    ranges.sort_by_key(|range| range.0);
}

/// Ranges in another order hold the same ids.
proof fn lemma_covered_same(a: Seq<(usize, usize)>, b: Seq<(usize, usize)>)
    requires
        a.to_multiset() == b.to_multiset(),
    ensures
        forall|id: int| covered(a, id) == covered(b, id),
        fresh_count(a) == fresh_count(b),
{
    assert forall|id: int| covered(a, id) == covered(b, id) by {
        if covered(a, id) {
            let i = choose|i: int| 0 <= i < a.len() && in_range(id, #[trigger] a[i]);
            assert(a.contains(a[i]));
            vstd::seq_lib::to_multiset_contains(a, a[i]);
            vstd::seq_lib::to_multiset_contains(b, a[i]);
            let j = choose|j: int| 0 <= j < b.len() && b[j] == a[i];
            assert(in_range(id, b[j]));
        }
        if covered(b, id) {
            let i = choose|i: int| 0 <= i < b.len() && in_range(id, #[trigger] b[i]);
            assert(b.contains(b[i]));
            vstd::seq_lib::to_multiset_contains(b, b[i]);
            vstd::seq_lib::to_multiset_contains(a, b[i]);
            let j = choose|j: int| 0 <= j < a.len() && a[j] == b[i];
            assert(in_range(id, a[j]));
        }
    }
    lemma_sum_agree(
        |id: int| one_if_covered(a, id),
        |id: int| one_if_covered(b, id),
        usize::MAX + 1,
    );
}

/// Ranges that are in order and apart from each other: each holds an id and
/// ends before `usize::MAX`, and between two of them lies an id that is in
/// neither.
pub open spec fn apart(ranges: Seq<(usize, usize)>) -> bool {
    &&& forall|i: int| 0 <= i < ranges.len() ==> (#[trigger] ranges[i]).0 <= ranges[i].1 < usize::MAX
    &&& forall|i: int, j: int|
        0 <= i < j < ranges.len() ==> (#[trigger] ranges[i]).1 + 1 < (#[trigger] ranges[j]).0
}

/// The number of ids in the first `n` of the `ranges`.
pub open spec fn lengths(ranges: Seq<(usize, usize)>, n: int) -> nat
    decreases n,
{
    if n <= 0 {
        0
    } else {
        lengths(ranges, n - 1) + (ranges[n - 1].1 - ranges[n - 1].0 + 1) as nat
    }
}

/// Ids that are all covered, counted.
proof fn lemma_count_run(ranges: Seq<(usize, usize)>, from: int, to: int)
    requires
        0 <= from <= to,
        forall|id: int| from <= id < to ==> covered(ranges, id),
    ensures
        covered_below(ranges, to) == covered_below(ranges, from) + (to - from),
    decreases to - from,
{
    if from < to {
        lemma_count_run(ranges, from, to - 1);
    }
}

/// Ids none of which is covered, counted.
proof fn lemma_count_gap(ranges: Seq<(usize, usize)>, from: int, to: int)
    requires
        0 <= from <= to,
        forall|id: int| from <= id < to ==> !covered(ranges, id),
    ensures
        covered_below(ranges, to) == covered_below(ranges, from),
    decreases to - from,
{
    if from < to {
        lemma_count_gap(ranges, from, to - 1);
    }
}

/// Ranges that are apart hold as many ids as their lengths add up to.
proof fn lemma_lengths_count(ranges: Seq<(usize, usize)>, n: int)
    requires
        apart(ranges),
        0 <= n <= ranges.len(),
    ensures
        n == 0 ==> lengths(ranges, n) == 0,
        n > 0 ==> lengths(ranges, n) == covered_below(ranges, ranges[n - 1].1 + 1),
        n > 0 ==> lengths(ranges, n) <= ranges[n - 1].1 + 1,
    decreases n,
{
    if n > 0 {
        lemma_lengths_count(ranges, n - 1);
        let (start, end) = ranges[n - 1];
        let before: int = if n == 1 {
            0
        } else {
            ranges[n - 2].1 + 1
        };
        assert forall|id: int| before <= id < start implies !covered(ranges, id) by {
            if covered(ranges, id) {
                let i = choose|i: int| 0 <= i < ranges.len() && in_range(id, #[trigger] ranges[i]);
                if i < n - 1 {
                    if i < n - 2 {
                        assert(ranges[i].1 + 1 < ranges[n - 2].0);
                    }
                } else if i > n - 1 {
                    assert(ranges[n - 1].1 + 1 < ranges[i].0);
                }
            }
        }
        assert forall|id: int| start <= id < end + 1 implies covered(ranges, id) by {
            assert(in_range(id, ranges[n - 1]));
        }
        if n == 1 {
            assert(covered_below(ranges, 0) == 0);
        }
        lemma_count_gap(ranges, before, start as int);
        lemma_count_run(ranges, start as int, end + 1);
    }
}

/// Reads a line `start-end` as a range.
fn parse_range(line: &Vec<char>) -> (out: Option<(usize, usize)>)
    ensures
        out == range_of(line@),
{
    match split_once(line, '-') {
        Some((start, end)) => {
            let s = parse_unsigned(&start, usize::MAX as u64);
            let e = parse_unsigned(&end, (usize::MAX - 1) as u64);
            match (s, e) {
                (Some(s), Some(e)) => Some((s as usize, e as usize)),
                _ => None,
            }
        },
        None => None,
    }
}

/// Reads a line as an id.
fn parse_id(line: &Vec<char>) -> (out: Option<usize>)
    ensures
        out == id_of(line@),
{
    match parse_unsigned(line, usize::MAX as u64) {
        Some(v) => Some(v as usize),
        None => None,
    }
}

/// Index of the first of two line feeds in a row, or `s.len()` if there are
/// none.
fn find_gap(s: &Vec<char>) -> (at: usize)
    ensures
        at == gap_from(s@, 0),
        at <= s.len(),
        at < s.len() ==> at + 2 <= s.len(),
{
    let mut at: usize = 0;
    while at < s.len()
        invariant
            at <= s.len(),
            gap_from(s@, at as int) == gap_from(s@, 0),
        decreases s.len() - at,
    {
        if at + 1 < s.len() && s[at] == '\n' && s[at + 1] == '\n' {
            return at;
        }
        at += 1;
    }
    at
}

impl Inventory {
    /// Reads an inventory from text: one range `start-end` a line, an empty
    /// line, one id a line. Returns `None` for any other text.
    pub fn parse(text: &str) -> (out: Option<Inventory>)
        ensures
            match listed(text@) {
                Some((ranges, ids)) => out matches Some(inventory) && inventory.wf()
                    && inventory.ranges() == ranges && inventory.available() == ids,
                None => out is None,
            },
    {
        let chars = chars_of(text);
        let gap = find_gap(&chars);
        if gap >= chars.len() {
            return None;
        }
        let head = copy_range(&chars, 0, gap);
        let tail = copy_range(&chars, gap + 2, chars.len());
        let range_lines = split_lines(&head);
        let id_lines = split_lines(&tail);
        let ghost range_texts = lines_of(head@);
        let ghost id_texts = lines_of(tail@);
        let mut fresh_ranges: Vec<(usize, usize)> = Vec::new();
        let mut i: usize = 0;
        while i < range_lines.len()
            invariant
                i <= range_lines.len(),
                gap == gap_from(text@, 0),
                gap < text@.len(),
                range_texts == lines_of(text@.subrange(0, gap as int)),
                range_texts == row_views(range_lines@),
                fresh_ranges.len() == i,
                forall|k: int| 0 <= k < i ==> range_of(#[trigger] range_texts[k]) == Some(fresh_ranges[k]),
            decreases range_lines.len() - i,
        {
            assert(range_texts[i as int] == range_lines[i as int]@);
            match parse_range(&range_lines[i]) {
                Some(range) => {
                    fresh_ranges.push(range);
                },
                None => {
                    return None;
                },
            }
            i += 1;
        }
        let mut available_ingredients: Vec<usize> = Vec::new();
        let mut i: usize = 0;
        while i < id_lines.len()
            invariant
                i <= id_lines.len(),
                gap == gap_from(text@, 0),
                gap < text@.len(),
                id_texts == lines_of(text@.subrange(gap + 2, text@.len() as int)),
                id_texts == row_views(id_lines@),
                available_ingredients.len() == i,
                forall|k: int| 0 <= k < i ==> id_of(#[trigger] id_texts[k]) == Some(available_ingredients[k]),
            decreases id_lines.len() - i,
        {
            assert(id_texts[i as int] == id_lines[i as int]@);
            match parse_id(&id_lines[i]) {
                Some(id) => {
                    available_ingredients.push(id);
                },
                None => {
                    return None;
                },
            }
            i += 1;
        }
        proof {
            let (ranges, ids) = listed(text@)->0;
            assert(fresh_ranges@ =~= ranges);
            assert(available_ingredients@ =~= ids);
        }
        Some(Inventory { fresh_ranges, available_ingredients })
    }

    /// The ranges of fresh ids.
    pub closed spec fn ranges(&self) -> Seq<(usize, usize)> {
        self.fresh_ranges@
    }

    /// The ids of the ingredients at hand.
    pub closed spec fn available(&self) -> Seq<usize> {
        self.available_ingredients@
    }

    /// No range ends with the largest number of the machine, so that the ids
    /// in the ranges can be counted.
    pub open spec fn wf(&self) -> bool {
        forall|i: int| 0 <= i < self.ranges().len() ==> (#[trigger] self.ranges()[i]).1 < usize::MAX
    }

    /// An inventory of the given ranges and ids, unless a range ends with
    /// the largest number of the machine.
    pub fn new(fresh_ranges: Vec<(usize, usize)>, available_ingredients: Vec<usize>) -> (out: Option<
        Inventory,
    >)
        ensures
            out is Some <==> forall|i: int|
                0 <= i < fresh_ranges.len() ==> (#[trigger] fresh_ranges[i]).1 < usize::MAX,
            out matches Some(inventory) ==> inventory.wf() && inventory.ranges() == fresh_ranges@
                && inventory.available() == available_ingredients@,
    {
        let mut i: usize = 0;
        while i < fresh_ranges.len()
            invariant
                i <= fresh_ranges.len(),
                forall|k: int| 0 <= k < i ==> (#[trigger] fresh_ranges[k]).1 < usize::MAX,
            decreases fresh_ranges.len() - i,
        {
            if fresh_ranges[i].1 == usize::MAX {
                return None;
            }
            i += 1;
        }
        Some(Inventory { fresh_ranges, available_ingredients })
    }

    /// The ranges of fresh ids.
    pub fn fresh_ranges(&self) -> (out: &Vec<(usize, usize)>)
        ensures
            out@ == self.ranges(),
    {
        &self.fresh_ranges
    }

    /// The ids of the ingredients at hand.
    pub fn available_ingredients(&self) -> (out: &Vec<usize>)
        ensures
            out@ == self.available(),
    {
        &self.available_ingredients
    }

    /// Whether `value` lies in `range`, both ends included.
    pub fn is_in_range(value: usize, range: &(usize, usize)) -> (b: bool)
        ensures
            b == in_range(value as int, *range),
    {
        range.0 <= value && value <= range.1
    }

    /// Whether the ingredient with this id is fresh: whether the id lies in
    /// one of the ranges.
    pub fn is_fresh(&self, ingredient_id: usize) -> (b: bool)
        ensures
            b == covered(self.ranges(), ingredient_id as int),
    {
        let mut i: usize = 0;
        while i < self.fresh_ranges.len()
            invariant
                i <= self.fresh_ranges.len(),
                forall|k: int| 0 <= k < i ==> !in_range(ingredient_id as int, #[trigger] self.ranges()[k]),
            decreases self.fresh_ranges.len() - i,
        {
            if Self::is_in_range(ingredient_id, &self.fresh_ranges[i]) {
                assert(in_range(ingredient_id as int, self.ranges()[i as int]));
                return true;
            }
            i += 1;
        }
        false
    }

    /// The ingredients at hand that are fresh, in the order of the list.
    pub fn get_available_fresh_ingredients(&self) -> (out: Vec<usize>)
        ensures
            out@ == fresh_among(self.ranges(), self.available()),
    {
        let ghost fresh = |id: usize| covered(self.ranges(), id as int);
        let mut out: Vec<usize> = Vec::new();
        let mut i: usize = 0;
        assert(self.available().take(0) =~= Seq::<usize>::empty());
        while i < self.available_ingredients.len()
            invariant
                i <= self.available_ingredients.len(),
                fresh == |id: usize| covered(self.ranges(), id as int),
                out@ == self.available().take(i as int).filter(fresh),
            decreases self.available_ingredients.len() - i,
        {
            let id = self.available_ingredients[i];
            proof {
                let seen = self.available().take(i as int);
                assert(self.available().take(i as int + 1) =~= seen.push(id));
                assert(seen.push(id).drop_last() =~= seen);
                reveal(Seq::filter);
            }
            if self.is_fresh(id) {
                out.push(id);
            }
            i += 1;
        }
        assert(self.available().take(self.available_ingredients.len() as int) =~= self.available());
        out
    }

    /// The number of ids that are fresh: that lie in one of the ranges. An
    /// id that lies in several ranges counts once.
    pub fn get_fresh_ingredient_count(&self) -> (count: usize)
        requires
            self.wf(),
        ensures
            count == fresh_count(self.ranges()),
    {
        let mut ranges: Vec<(usize, usize)> = Vec::new();
        let mut i: usize = 0;
        while i < self.fresh_ranges.len()
            invariant
                i <= self.fresh_ranges.len(),
                ranges@ == self.ranges().take(i as int),
            decreases self.fresh_ranges.len() - i,
        {
            ranges.push(self.fresh_ranges[i]);
            assert(self.ranges().take(i as int + 1) =~= self.ranges().take(i as int).push(
                self.ranges()[i as int],
            ));
            i += 1;
        }
        assert(self.ranges().take(self.fresh_ranges.len() as int) =~= self.ranges());
        sort_by_start(&mut ranges);
        proof {
            lemma_covered_same(ranges@, self.ranges());
            assert forall|k: int| 0 <= k < ranges.len() implies (#[trigger] ranges[k]).1
                < usize::MAX by {
                assert(ranges@.contains(ranges[k]));
                vstd::seq_lib::to_multiset_contains(ranges@, ranges[k]);
                vstd::seq_lib::to_multiset_contains(self.ranges(), ranges[k]);
                let j = choose|j: int| 0 <= j < self.ranges().len() && self.ranges()[j] == ranges[k];
                assert(self.ranges()[j].1 < usize::MAX);
            }
        }
        let merged = merge_sorted(&ranges);
        let mut count: usize = 0;
        let mut k: usize = 0;
        while k < merged.len()
            invariant
                k <= merged.len(),
                apart(merged@),
                count == lengths(merged@, k as int),
            decreases merged.len() - k,
        {
            proof {
                lemma_lengths_count(merged@, k as int + 1);
            }
            let (start, end) = merged[k];
            count += end - start + 1;
            k += 1;
        }
        proof {
            lemma_lengths_count(merged@, merged.len() as int);
            if merged.len() == 0 {
                assert forall|id: int| 0 <= id < usize::MAX + 1 implies #[trigger] one_if_covered(
                    merged@,
                    id,
                ) == 0 by {}
                lemma_sum_zero(|id: int| one_if_covered(merged@, id), usize::MAX + 1);
            } else {
                let last = merged[merged.len() - 1];
                assert forall|id: int| last.1 + 1 <= id < usize::MAX + 1 implies !covered(
                    merged@,
                    id,
                ) by {
                    if covered(merged@, id) {
                        let i = choose|i: int|
                            0 <= i < merged.len() && in_range(id, #[trigger] merged[i]);
                        if i < merged.len() - 1 {
                            assert(merged[i].1 + 1 < merged[merged.len() - 1].0);
                        }
                    }
                }
                lemma_count_gap(merged@, last.1 + 1, usize::MAX + 1);
            }
            lemma_sum_agree(
                |id: int| one_if_covered(merged@, id),
                |id: int| one_if_covered(ranges@, id),
                usize::MAX + 1,
            );
        }
        count
    }
}

/// Joins ranges whose starts ascend into ranges that are apart and hold the
/// same ids.
fn merge_sorted(ranges: &Vec<(usize, usize)>) -> (merged: Vec<(usize, usize)>)
    requires
        forall|i: int, j: int| 0 <= i <= j < ranges.len() ==> ranges[i].0 <= ranges[j].0,
        forall|i: int| 0 <= i < ranges.len() ==> (#[trigger] ranges[i]).1 < usize::MAX,
    ensures
        apart(merged@),
        forall|id: int| covered(merged@, id) == covered(ranges@, id),
{
    let mut merged: Vec<(usize, usize)> = Vec::new();
    let mut i: usize = 0;
    while i < ranges.len()
        invariant
            i <= ranges.len(),
            forall|a: int, b: int| 0 <= a <= b < ranges.len() ==> ranges[a].0 <= ranges[b].0,
            forall|a: int| 0 <= a < ranges.len() ==> (#[trigger] ranges[a]).1 < usize::MAX,
            apart(merged@),
            forall|id: int| covered(merged@, id) == covered(ranges@.take(i as int), id),
            forall|k: int, j: int|
                0 <= k < merged.len() && i <= j < ranges.len() ==> (#[trigger] merged[k]).0
                    <= (#[trigger] ranges[j]).0,
        decreases ranges.len() - i,
    {
        let (start, end) = ranges[i];
        let ghost before = merged@;
        let ghost seen = ranges@.take(i as int);
        let ghost now = ranges@.take(i as int + 1);
        proof {
            assert(now =~= seen.push((start, end)));
            assert forall|id: int| covered(now, id) == (covered(seen, id) || in_range(
                id,
                (start, end),
            )) by {
                if covered(now, id) {
                    let a = choose|a: int| 0 <= a < now.len() && in_range(id, #[trigger] now[a]);
                    if a < seen.len() {
                        assert(in_range(id, seen[a]));
                    }
                }
                if covered(seen, id) {
                    let a = choose|a: int| 0 <= a < seen.len() && in_range(id, #[trigger] seen[a]);
                    assert(in_range(id, now[a]));
                }
                if in_range(id, (start, end)) {
                    assert(in_range(id, now[i as int]));
                }
            }
        }
        if start <= end {
            let n = merged.len();
            if n > 0 && start <= merged[n - 1].1 + 1 {
                let last = merged[n - 1];
                let joined: (usize, usize) = (
                    last.0,
                    if end > last.1 {
                        end
                    } else {
                        last.1
                    },
                );
                merged.set(n - 1, joined);
                proof {
                    assert(ranges[i as int].0 == start);
                    assert(before[n - 1].0 <= start);
                    assert forall|id: int| covered(merged@, id) == (covered(before, id) || in_range(
                        id,
                        (start, end),
                    )) by {
                        if covered(merged@, id) {
                            let a = choose|a: int|
                                0 <= a < merged.len() && in_range(id, #[trigger] merged[a]);
                            if a < n - 1 {
                                assert(in_range(id, before[a]));
                            } else if !in_range(id, (start, end)) {
                                assert(in_range(id, before[n - 1]));
                            }
                        }
                        if covered(before, id) {
                            let a = choose|a: int|
                                0 <= a < before.len() && in_range(id, #[trigger] before[a]);
                            assert(in_range(id, merged[a]));
                        }
                        if in_range(id, (start, end)) {
                            assert(in_range(id, merged[n - 1]));
                        }
                    }
                    assert forall|a: int, b: int| 0 <= a < b < merged.len() implies (
                    #[trigger] merged[a]).1 + 1 < (#[trigger] merged[b]).0 by {
                        assert(before[a].1 + 1 < before[b].0);
                    }
                }
            } else {
                merged.push((start, end));
                proof {
                    assert forall|id: int| covered(merged@, id) == (covered(before, id) || in_range(
                        id,
                        (start, end),
                    )) by {
                        if covered(merged@, id) {
                            let a = choose|a: int|
                                0 <= a < merged.len() && in_range(id, #[trigger] merged[a]);
                            if a < n {
                                assert(in_range(id, before[a]));
                            }
                        }
                        if covered(before, id) {
                            let a = choose|a: int|
                                0 <= a < before.len() && in_range(id, #[trigger] before[a]);
                            assert(in_range(id, merged[a]));
                        }
                        if in_range(id, (start, end)) {
                            assert(in_range(id, merged[n as int]));
                        }
                    }
                    assert forall|a: int, b: int| 0 <= a < b < merged.len() implies (
                    #[trigger] merged[a]).1 + 1 < (#[trigger] merged[b]).0 by {
                        if b < n {
                            assert(before[a].1 + 1 < before[b].0);
                        } else if a < n - 1 {
                            assert(before[a].1 + 1 < before[n - 1].0);
                        }
                    }
                    assert forall|k: int, j: int|
                        0 <= k < merged.len() && i + 1 <= j < ranges.len() implies (
                    #[trigger] merged[k]).0 <= (#[trigger] ranges[j]).0 by {
                        if k == n {
                            assert(ranges[i as int].0 <= ranges[j].0);
                        } else {
                            assert(before[k].0 <= ranges[j].0);
                        }
                    }
                }
            }
        }
        proof {
            assert forall|id: int| covered(merged@, id) == covered(now, id) by {
                assert(covered(before, id) == covered(seen, id));
                assert(covered(now, id) == (covered(seen, id) || in_range(id, (start, end))));
                if start <= end {
                    assert(covered(merged@, id) == (covered(before, id) || in_range(
                        id,
                        (start, end),
                    )));
                }
            }
        }
        i += 1;
    }
    assert(ranges@.take(ranges.len() as int) =~= ranges@);
    merged
}

} // verus!
