//! Text handling shared by the puzzle parsers: the characters of a string
//! and the lines of a text.

use vstd::prelude::*;

verus! {

/// Index of the first `c` in `s` at or after `from`, or `s.len()` if there
/// is none.
pub open spec fn next_index(s: Seq<char>, c: char, from: int) -> int
    decreases s.len() - from,
{
    if from < 0 || from >= s.len() || s[from] == c {
        from
    } else {
        next_index(s, c, from + 1)
    }
}

/// Index of the first line feed in `s` at or after `from`, or `s.len()` if
/// there is none.
pub open spec fn line_end(s: Seq<char>, from: int) -> int {
    next_index(s, '\n', from)
}

/// The two parts of `s` before and behind its first `c`, if it has one.
pub open spec fn split_at_first(s: Seq<char>, c: char) -> Option<(Seq<char>, Seq<char>)> {
    let at = next_index(s, c, 0);
    if at < s.len() {
        Some((s.subrange(0, at), s.subrange(at + 1, s.len() as int)))
    } else {
        None
    }
}

/// The characters `s[from..to]` as one line: without the carriage return that
/// precedes a line feed at `to`.
pub open spec fn line_text(s: Seq<char>, from: int, to: int) -> Seq<char> {
    if from < to < s.len() && s[to - 1] == '\r' {
        s.subrange(from, to - 1)
    } else {
        s.subrange(from, to)
    }
}

/// The lines of `s` that begin at or after `from`, where `from` is the start
/// of a line.
pub open spec fn lines_from(s: Seq<char>, from: int) -> Seq<Seq<char>>
    decreases s.len() - from,
{
    if from < 0 || from >= s.len() {
        Seq::empty()
    } else {
        let to = line_end(s, from);
        if from <= to < s.len() {
            seq![line_text(s, from, to)] + lines_from(s, to + 1)
        } else {
            seq![line_text(s, from, to)]
        }
    }
}

/// The lines of a text. Lines end at a line feed or at a carriage return
/// followed by a line feed; neither is part of the line. A line feed at the
/// very end of the text does not start another line.
pub open spec fn lines_of(s: Seq<char>) -> Seq<Seq<char>> {
    lines_from(s, 0)
}

/// `next_index` finds the first `c`.
pub proof fn lemma_next_index(s: Seq<char>, c: char, from: int)
    requires
        0 <= from <= s.len(),
    ensures
        from <= next_index(s, c, from) <= s.len(),
        next_index(s, c, from) < s.len() ==> s[next_index(s, c, from)] == c,
        forall|i: int| from <= i < next_index(s, c, from) ==> s[i] != c,
    decreases s.len() - from,
{
    if from < s.len() && s[from] != c {
        lemma_next_index(s, c, from + 1);
    }
}

/// Index of the first `c` in `s` at or after `from`, or `s.len()` if there
/// is none.
pub fn find_from(s: &Vec<char>, c: char, from: usize) -> (at: usize)
    requires
        from <= s.len(),
    ensures
        at == next_index(s@, c, from as int),
        from <= at <= s.len(),
{
    let mut at: usize = from;
    while at < s.len() && s[at] != c
        invariant
            from <= at <= s.len(),
            next_index(s@, c, at as int) == next_index(s@, c, from as int),
        decreases s.len() - at,
    {
        at += 1;
    }
    at
}

/// Cuts `s` at its first `c`.
pub fn split_once(s: &Vec<char>, c: char) -> (out: Option<(Vec<char>, Vec<char>)>)
    ensures
        match out {
            Some(parts) => split_at_first(s@, c) == Some((parts.0@, parts.1@)),
            None => split_at_first(s@, c) is None,
        },
{
    let at = find_from(s, c, 0);
    if at < s.len() {
        Some((copy_range(s, 0, at), copy_range(s, at + 1, s.len())))
    } else {
        None
    }
}

/// The characters of `s`, in order.
pub fn chars_of(s: &str) -> (out: Vec<char>)
    ensures
        out@ == s@,
{
    let mut out: Vec<char> = Vec::new();
    for c in it: s.chars()
        invariant
            out@ == it.seq().take(it.index() as int),
            it.seq() == s@,
    {
        out.push(c);
    }
    out
}

/// A copy of `s[from..to]`.
pub fn copy_range(s: &Vec<char>, from: usize, to: usize) -> (out: Vec<char>)
    requires
        from <= to <= s.len(),
    ensures
        out@ == s@.subrange(from as int, to as int),
{
    let mut out: Vec<char> = Vec::new();
    let mut i: usize = from;
    while i < to
        invariant
            from <= i <= to <= s.len(),
            out@ == s@.subrange(from as int, i as int),
        decreases to - i,
    {
        out.push(s[i]);
        i += 1;
    }
    out
}

/// The contents of each of the `rows`.
pub open spec fn row_views<T>(rows: Seq<Vec<T>>) -> Seq<Seq<T>> {
    Seq::new(rows.len(), |i: int| rows[i]@)
}

/// The length of the longest of the `rows`, 0 if there is none.
pub open spec fn max_len<T>(rows: Seq<Seq<T>>) -> nat
    decreases rows.len(),
{
    if rows.len() == 0 {
        0
    } else {
        let rest = max_len(rows.drop_last());
        if rows.last().len() > rest {
            rows.last().len()
        } else {
            rest
        }
    }
}

pub proof fn lemma_max_len_bounds<T>(rows: Seq<Seq<T>>)
    ensures
        forall|y: int| 0 <= y < rows.len() ==> #[trigger] rows[y].len() <= max_len(rows),
        max_len(rows) > 0 ==> exists|y: int| 0 <= y < rows.len() && #[trigger] rows[y].len() == max_len(rows),
    decreases rows.len(),
{
    if rows.len() > 0 {
        let init = rows.drop_last();
        lemma_max_len_bounds(init);
        assert forall|y: int| 0 <= y < rows.len() implies #[trigger] rows[y].len() <= max_len(rows) by {
            if y < init.len() {
                assert(init[y] == rows[y]);
            }
        }
        if max_len(rows) > 0 {
            if rows.last().len() > max_len(init) {
                assert(rows[rows.len() - 1].len() == max_len(rows));
            } else {
                let y = choose|y: int| 0 <= y < init.len() && #[trigger] init[y].len() == max_len(init);
                assert(rows[y] == init[y]);
            }
        }
    }
}

/// The length of the longest of the `rows`.
pub fn widest<T>(rows: &Vec<Vec<T>>) -> (width: usize)
    ensures
        width == max_len(row_views(rows@)),
{
    let mut width: usize = 0;
    let mut y: usize = 0;
    while y < rows.len()
        invariant
            y <= rows.len(),
            width == max_len(row_views(rows@).take(y as int)),
        decreases rows.len() - y,
    {
        proof {
            let next = row_views(rows@).take(y as int + 1);
            assert(next.drop_last() =~= row_views(rows@).take(y as int));
            assert(next.last() == rows[y as int]@);
        }
        if rows[y].len() > width {
            width = rows[y].len();
        }
        y += 1;
    }
    assert(row_views(rows@).take(rows.len() as int) =~= row_views(rows@));
    width
}

/// Splits a text into its lines.
pub fn split_lines(s: &Vec<char>) -> (out: Vec<Vec<char>>)
    ensures
        row_views(out@) == lines_of(s@),
{
    let mut out: Vec<Vec<char>> = Vec::new();
    let mut from: usize = 0;
    assert(row_views(out@) + lines_from(s@, 0) =~= lines_of(s@));
    while from < s.len()
        invariant
            from <= s.len(),
            row_views(out@) + lines_from(s@, from as int) == lines_of(s@),
        decreases s.len() - from,
    {
        let to = find_from(s, '\n', from);
        let stop: usize = if from < to && to < s.len() && s[to - 1] == '\r' {
            to - 1
        } else {
            to
        };
        let line = copy_range(s, from, stop);
        proof {
            lemma_next_index(s@, '\n', from as int);
            assert(line@ == line_text(s@, from as int, to as int));
            assert(row_views(out@).push(line@) + lines_from(s@, to as int + 1) =~= row_views(out@)
                + lines_from(s@, from as int));
        }
        let ghost before = row_views(out@);
        out.push(line);
        assert(row_views(out@) =~= before.push(line@));
        if to < s.len() {
            from = to + 1;
        } else {
            from = to;
        }
    }
    assert(row_views(out@) + Seq::<Seq<char>>::empty() =~= row_views(out@));
    out
}

/// Whether `c` is one of the digits `0` to `9`.
pub open spec fn is_digit(c: char) -> bool {
    '0' <= c <= '9'
}

/// The value of the digit `c`.
pub open spec fn digit_value(c: char) -> nat {
    (c as int - '0' as int) as nat
}

/// Whether `s` is made of digits alone.
pub open spec fn all_digits(s: Seq<char>) -> bool {
    forall|i: int| 0 <= i < s.len() ==> is_digit(#[trigger] s[i])
}

/// The number that the digits `s` write in base ten.
pub open spec fn decimal(s: Seq<char>) -> nat
    decreases s.len(),
{
    if s.len() == 0 {
        0
    } else {
        decimal(s.drop_last()) * 10 + digit_value(s.last())
    }
}

/// The number that `s` writes: digits, at least one, after an optional `+`.
pub open spec fn unsigned_of(s: Seq<char>) -> Option<nat> {
    let digits = if s.len() > 0 && s[0] == '+' {
        s.subrange(1, s.len() as int)
    } else {
        s
    };
    if digits.len() > 0 && all_digits(digits) {
        Some(decimal(digits))
    } else {
        None
    }
}

/// The number that `s` writes: digits, at least one, after an optional `+`
/// or `-`.
pub open spec fn signed_of(s: Seq<char>) -> Option<int> {
    if s.len() > 0 && s[0] == '-' {
        let digits = s.subrange(1, s.len() as int);
        if digits.len() > 0 && all_digits(digits) {
            Some(-(decimal(digits) as int))
        } else {
            None
        }
    } else {
        match unsigned_of(s) {
            Some(v) => Some(v as int),
            None => None,
        }
    }
}

/// A number does not get smaller when digits are written behind it.
pub proof fn lemma_decimal_prefix(s: Seq<char>, n: int)
    requires
        0 <= n <= s.len(),
    ensures
        decimal(s.take(n)) <= decimal(s),
    decreases s.len() - n,
{
    if n < s.len() {
        lemma_decimal_prefix(s, n + 1);
        assert(s.take(n + 1).drop_last() =~= s.take(n));
    } else {
        assert(s.take(n) =~= s);
    }
}

/// Whether `c` is a digit, and its value if so.
pub fn digit_of(c: char) -> (out: Option<u8>)
    ensures
        out is Some <==> is_digit(c),
        out matches Some(d) ==> d == digit_value(c) && d <= 9,
{
    if '0' <= c && c <= '9' {
        Some((c as u32 - '0' as u32) as u8)
    } else {
        None
    }
}

/// Reads the digits `s[from..]` as a number in base ten. Returns `None`
/// unless there is at least one character, all are digits and the number is
/// at most `limit`.
pub fn parse_digits(s: &Vec<char>, from: usize, limit: u64) -> (out: Option<u64>)
    requires
        from <= s.len(),
    ensures
        out == if from < s.len() && all_digits(s@.subrange(from as int, s.len() as int)) && decimal(
            s@.subrange(from as int, s.len() as int),
        ) <= limit {
            Some(decimal(s@.subrange(from as int, s.len() as int)) as u64)
        } else {
            None
        },
{
    let ghost digits = s@.subrange(from as int, s.len() as int);
    if from >= s.len() {
        return None;
    }
    let mut value: u64 = 0;
    let mut i: usize = from;
    while i < s.len()
        invariant
            from <= i <= s.len(),
            digits == s@.subrange(from as int, s.len() as int),
            all_digits(digits.take(i - from)),
            value == decimal(digits.take(i - from)),
            value <= limit,
        decreases s.len() - i,
    {
        let ghost seen = digits.take(i - from);
        let ghost more = digits.take(i - from + 1);
        proof {
            assert(more.drop_last() =~= seen);
            assert(more.last() == s[i as int]);
            assert(digits[i - from] == s[i as int]);
            lemma_decimal_prefix(digits, i - from + 1);
        }
        let d = match digit_of(s[i]) {
            Some(d) => d,
            None => {
                return None;
            },
        };
        let next = match value.checked_mul(10) {
            Some(tens) => tens.checked_add(d as u64),
            None => None,
        };
        match next {
            Some(n) => {
                if n > limit {
                    return None;
                }
                value = n;
            },
            None => {
                return None;
            },
        }
        i += 1;
    }
    assert(digits.take(s.len() - from) =~= digits);
    Some(value)
}

/// Reads `s` as a number without sign: digits after an optional `+`.
/// Returns `None` if `s` is no such text or the number is larger than
/// `limit`.
pub fn parse_unsigned(s: &Vec<char>, limit: u64) -> (out: Option<u64>)
    ensures
        out == match unsigned_of(s@) {
            Some(v) => if v <= limit {
                Some(v as u64)
            } else {
                None
            },
            None => None,
        },
{
    let from: usize = if s.len() > 0 && s[0] == '+' {
        1
    } else {
        0
    };
    assert(s@.subrange(0, s.len() as int) =~= s@);
    parse_digits(s, from, limit)
}

/// Reads `s` as a number with an optional sign. Returns `None` if `s` is no
/// such text or the number is not between `-limit` and `limit`.
pub fn parse_signed(s: &Vec<char>, limit: u32) -> (out: Option<i64>)
    ensures
        out == match signed_of(s@) {
            Some(v) => if -limit <= v <= limit {
                Some(v as i64)
            } else {
                None
            },
            None => None,
        },
{
    if s.len() > 0 && s[0] == '-' {
        match parse_digits(s, 1, limit as u64) {
            Some(v) => Some(-(v as i64)),
            None => None,
        }
    } else {
        match parse_unsigned(s, limit as u64) {
            Some(v) => Some(v as i64),
            None => None,
        }
    }
}

/// Whether `c` is white space: a character with the Unicode property
/// `White_Space`.
pub open spec fn is_space(c: char) -> bool {
    let code = c as u32;
    ||| 0x09 <= code <= 0x0D
    ||| code == 0x20
    ||| code == 0x85
    ||| code == 0xA0
    ||| code == 0x1680
    ||| 0x2000 <= code <= 0x200A
    ||| code == 0x2028
    ||| code == 0x2029
    ||| code == 0x202F
    ||| code == 0x205F
    ||| code == 0x3000
}

/// Index of the first character of `s` at or after `from` that is no white
/// space, or `s.len()` if there is none.
pub open spec fn skip_spaces(s: Seq<char>, from: int) -> int
    decreases s.len() - from,
{
    if from < 0 || from >= s.len() || !is_space(s[from]) {
        from
    } else {
        skip_spaces(s, from + 1)
    }
}

/// The end of `s[from..to]` without the white space at its end.
pub open spec fn drop_spaces(s: Seq<char>, from: int, to: int) -> int
    decreases to - from,
{
    if to <= from || to > s.len() || !is_space(s[to - 1]) {
        to
    } else {
        drop_spaces(s, from, to - 1)
    }
}

/// `s` without the white space at its beginning and at its end.
pub open spec fn trimmed(s: Seq<char>) -> Seq<char> {
    let from = skip_spaces(s, 0);
    s.subrange(from, drop_spaces(s, from, s.len() as int))
}

/// Whether `c` is white space.
pub fn is_space_char(c: char) -> (b: bool)
    ensures
        b == is_space(c),
{
    let code = c as u32;
    (0x09 <= code && code <= 0x0D) || code == 0x20 || code == 0x85 || code == 0xA0 || code
        == 0x1680 || (0x2000 <= code && code <= 0x200A) || code == 0x2028 || code == 0x2029
        || code == 0x202F || code == 0x205F || code == 0x3000
}

/// A copy of `s` without the white space at its beginning and at its end.
pub fn trim(s: &Vec<char>) -> (out: Vec<char>)
    ensures
        out@ == trimmed(s@),
{
    let mut from: usize = 0;
    while from < s.len() && is_space_char(s[from])
        invariant
            from <= s.len(),
            skip_spaces(s@, from as int) == skip_spaces(s@, 0),
        decreases s.len() - from,
    {
        from += 1;
    }
    let mut to: usize = s.len();
    while to > from && is_space_char(s[to - 1])
        invariant
            from <= to <= s.len(),
            drop_spaces(s@, from as int, to as int) == drop_spaces(s@, from as int, s.len() as int),
        decreases to,
    {
        to -= 1;
    }
    copy_range(s, from, to)
}

} // verus!
