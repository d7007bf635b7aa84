//! Banks of batteries, each with a joltage from 0 to 9, and the highest
//! number that a choice of batteries of a bank writes.

use crate::text::{chars_of, digit_of, digit_value, is_digit, lines_of, row_views, split_lines};
use vstd::prelude::*;

verus! {

/// Ten to the power of `n`.
pub open spec fn pow10(n: nat) -> nat
    decreases n,
{
    if n == 0 {
        1
    } else {
        10 * pow10((n - 1) as nat)
    }
}

/// Places in `s`, in ascending order, each of which holds a digit.
pub open spec fn is_pick(s: Seq<u8>, picked: Seq<int>) -> bool {
    &&& forall|j: int| 0 <= j < picked.len() ==> 0 <= #[trigger] picked[j] < s.len() && s[picked[j]] <= 9
    &&& forall|i: int, j: int| 0 <= i < j < picked.len() ==> picked[i] < picked[j]
}

/// The number that the digits in the places `picked` write.
pub open spec fn pick_value(s: Seq<u8>, picked: Seq<int>) -> nat
    decreases picked.len(),
{
    if picked.len() == 0 {
        0
    } else {
        s[picked[0]] as nat * pow10((picked.len() - 1) as nat) + pick_value(s, picked.drop_first())
    }
}

/// Whether `value` is the highest number that `count` digits of `s` write,
/// taken in their order.
pub open spec fn is_highest(s: Seq<u8>, count: nat, value: nat) -> bool {
    &&& exists|picked: Seq<int>| #[trigger]
        is_pick(s, picked) && picked.len() == count && pick_value(s, picked) == value
    &&& forall|picked: Seq<int>| #[trigger]
        is_pick(s, picked) && picked.len() == count ==> pick_value(s, picked) <= value
}

/// Whether `s` holds `count` digits.
pub open spec fn has_pick(s: Seq<u8>, count: nat) -> bool {
    exists|picked: Seq<int>| #[trigger] is_pick(s, picked) && picked.len() == count
}

/// The highest number that `count` digits of `s` write, taken in their
/// order; `None` if `s` holds fewer digits.
pub open spec fn highest(s: Seq<u8>, count: nat) -> Option<nat> {
    if has_pick(s, count) {
        Some(choose|value: nat| is_highest(s, count, value))
    } else {
        None
    }
}

/// The number of digits asked for: at least one.
pub open spec fn at_least_one(num_digits: u32) -> nat {
    if num_digits <= 1 {
        1
    } else {
        num_digits as nat
    }
}

/// There is one highest number at most.
pub proof fn lemma_highest_is(s: Seq<u8>, count: nat, value: nat)
    requires
        is_highest(s, count, value),
    ensures
        highest(s, count) == Some(value),
{
    let picked = choose|picked: Seq<int>| #[trigger]
        is_pick(s, picked) && picked.len() == count && pick_value(s, picked) == value;
    assert(has_pick(s, count));
    let other = choose|other: nat| is_highest(s, count, other);
    let other_picked = choose|picked: Seq<int>| #[trigger]
        is_pick(s, picked) && picked.len() == count && pick_value(s, picked) == other;
    assert(pick_value(s, picked) <= other);
    assert(pick_value(s, other_picked) <= value);
}

/// A number of `n` digits is below ten to the power of `n`.
pub proof fn lemma_pick_value_bound(s: Seq<u8>, picked: Seq<int>)
    requires
        is_pick(s, picked),
    ensures
        pick_value(s, picked) < pow10(picked.len()),
    decreases picked.len(),
{
    if picked.len() > 0 {
        let rest = picked.drop_first();
        assert forall|j: int| 0 <= j < rest.len() implies 0 <= #[trigger] rest[j] < s.len() && s[rest[j]]
            <= 9 by {
            assert(rest[j] == picked[j + 1]);
        }
        assert forall|i: int, j: int| 0 <= i < j < rest.len() implies rest[i] < rest[j] by {
            assert(picked[i + 1] < picked[j + 1]);
        }
        lemma_pick_value_bound(s, rest);
        let high = pow10((picked.len() - 1) as nat);
        assert(s[picked[0]] <= 9);
        assert(s[picked[0]] as nat * high + high <= 10 * high) by (nonlinear_arith)
            requires
                s[picked[0]] <= 9,
        ;
    }
}

/// The powers of ten up to the nineteenth are machine numbers.
pub proof fn lemma_pow10_fits(n: nat)
    requires
        n <= 19,
    ensures
        pow10(n) <= 10_000_000_000_000_000_000,
    decreases 19 - n,
{
    if n == 19 {
        reveal_with_fuel(pow10, 20);
    } else {
        lemma_pow10_fits(n + 1);
    }
}

/// The places `picked` of `s.subrange(from, s.len())`, as places of `s`.
pub open spec fn shifted(picked: Seq<int>, by: int) -> Seq<int> {
    Seq::new(picked.len(), |j: int| picked[j] + by)
}

/// A pick of the part of `s` behind `from` is a pick of `s`, and writes the
/// same number.
proof fn lemma_shift_in(s: Seq<u8>, from: int, picked: Seq<int>)
    requires
        0 <= from <= s.len(),
        is_pick(s.subrange(from, s.len() as int), picked),
    ensures
        is_pick(s, shifted(picked, from)),
        pick_value(s, shifted(picked, from)) == pick_value(s.subrange(from, s.len() as int), picked),
        forall|j: int| 0 <= j < picked.len() ==> shifted(picked, from)[j] >= from,
    decreases picked.len(),
{
    let part = s.subrange(from, s.len() as int);
    let moved = shifted(picked, from);
    assert forall|j: int| 0 <= j < moved.len() implies 0 <= #[trigger] moved[j] < s.len() && s[moved[j]]
        <= 9 by {
        assert(0 <= picked[j] < part.len() && part[picked[j]] <= 9);
    }
    if picked.len() > 0 {
        let rest = picked.drop_first();
        assert forall|j: int| 0 <= j < rest.len() implies 0 <= #[trigger] rest[j] < part.len()
            && part[rest[j]] <= 9 by {
            assert(rest[j] == picked[j + 1]);
        }
        assert forall|i: int, j: int| 0 <= i < j < rest.len() implies rest[i] < rest[j] by {
            assert(picked[i + 1] < picked[j + 1]);
        }
        lemma_shift_in(s, from, rest);
        assert(shifted(rest, from) =~= moved.drop_first());
    }
}

/// A pick of `s` whose places are at or behind `from` is a pick of the part
/// of `s` behind `from`, and writes the same number.
proof fn lemma_shift_out(s: Seq<u8>, from: int, picked: Seq<int>)
    requires
        0 <= from <= s.len(),
        is_pick(s, picked),
        forall|j: int| 0 <= j < picked.len() ==> picked[j] >= from,
    ensures
        is_pick(s.subrange(from, s.len() as int), shifted(picked, -from)),
        pick_value(s.subrange(from, s.len() as int), shifted(picked, -from)) == pick_value(s, picked),
    decreases picked.len(),
{
    let part = s.subrange(from, s.len() as int);
    let moved = shifted(picked, -from);
    assert forall|j: int| 0 <= j < moved.len() implies 0 <= #[trigger] moved[j] < part.len()
        && part[moved[j]] <= 9 by {
        assert(0 <= picked[j] < s.len() && s[picked[j]] <= 9);
    }
    if picked.len() > 0 {
        let rest = picked.drop_first();
        assert forall|j: int| 0 <= j < rest.len() implies 0 <= #[trigger] rest[j] < s.len() && s[rest[j]]
            <= 9 && rest[j] >= from by {
            assert(rest[j] == picked[j + 1]);
        }
        assert forall|i: int, j: int| 0 <= i < j < rest.len() implies rest[i] < rest[j] by {
            assert(picked[i + 1] < picked[j + 1]);
        }
        lemma_shift_out(s, from, rest);
        assert(shifted(rest, -from) =~= moved.drop_first());
    }
}

/// The rest of a pick is a pick behind its first place.
proof fn lemma_rest_of_pick(s: Seq<u8>, picked: Seq<int>)
    requires
        is_pick(s, picked),
        picked.len() > 0,
    ensures
        is_pick(s, picked.drop_first()),
        forall|j: int| 0 <= j < picked.len() - 1 ==> picked.drop_first()[j] >= picked[0] + 1,
{
    let rest = picked.drop_first();
    assert forall|j: int| 0 <= j < rest.len() implies 0 <= #[trigger] rest[j] < s.len() && s[rest[j]]
        <= 9 by {
        assert(rest[j] == picked[j + 1]);
    }
    assert forall|i: int, j: int| 0 <= i < j < rest.len() implies rest[i] < rest[j] by {
        assert(picked[i + 1] < picked[j + 1]);
    }
    assert forall|j: int| 0 <= j < picked.len() - 1 implies rest[j] >= picked[0] + 1 by {
        assert(picked[0] < picked[j + 1]);
    }
}

/// One digit writes its own value.
proof fn lemma_single_pick(s: Seq<u8>, picked: Seq<int>)
    requires
        picked.len() == 1,
    ensures
        pick_value(s, picked) == s[picked[0]],
{
    assert(picked.drop_first().len() == 0);
    assert(pick_value(s, picked.drop_first()) == 0);
    assert(pow10(0) == 1);
    assert(pick_value(s, picked) == s[picked[0]] as nat * pow10(0) + pick_value(
        s,
        picked.drop_first(),
    ));
}

/// Ten to the power of `n`.
fn power_of_ten(n: u32) -> (out: u64)
    requires
        n <= 19,
    ensures
        out == pow10(n as nat),
{
    let mut out: u64 = 1;
    let mut i: u32 = 0;
    while i < n
        invariant
            i <= n <= 19,
            out == pow10(i as nat),
        decreases n - i,
    {
        proof {
            lemma_pow10_fits((i + 1) as nat);
        }
        out = out * 10;
        i += 1;
    }
    out
}

/// The first place of `sequence` that holds `digit`.
fn find_digit(sequence: &[u8], digit: u8) -> (out: Option<usize>)
    ensures
        match out {
            Some(at) => at < sequence.len() && sequence[at as int] == digit && forall|i: int|
                0 <= i < at ==> sequence[i] != digit,
            None => forall|i: int| 0 <= i < sequence.len() ==> sequence[i] != digit,
        },
{
    let mut at: usize = 0;
    while at < sequence.len()
        invariant
            at <= sequence.len(),
            forall|i: int| 0 <= i < at ==> sequence[i] != digit,
        decreases sequence.len() - at,
    {
        if sequence[at] == digit {
            return Some(at);
        }
        at += 1;
    }
    None
}

/// The highest number that `num_digits` digits of `sequence` write, taken
/// in their order; one digit where `num_digits` is 0. Numbers above 9 in
/// `sequence` are no digits and are passed over. Returns `None` if
/// `sequence` holds fewer digits.
pub fn get_highest_possible_number(sequence: &[u8], num_digits: u32) -> (out: Option<u64>)
    requires
        num_digits <= 19,
    ensures
        match out {
            Some(value) => is_highest(sequence@, at_least_one(num_digits), value as nat),
            None => !has_pick(sequence@, at_least_one(num_digits)),
        },
        out matches Some(value) ==> value < pow10(at_least_one(num_digits)),
    decreases num_digits,
{
    let ghost s = sequence@;
    let ghost count = at_least_one(num_digits);
    let mut digit: u8 = 10;
    while digit > 0
        invariant
            digit <= 10,
            num_digits <= 19,
            s == sequence@,
            count == at_least_one(num_digits),
            forall|picked: Seq<int>| #[trigger]
                is_pick(s, picked) && picked.len() == count ==> s[picked[0]] < digit,
        decreases digit,
    {
        digit -= 1;
        match find_digit(sequence, digit) {
            Some(position) => {
                if num_digits <= 1 {
                    proof {
                        let picked = seq![position as int];
                        assert(is_pick(s, picked));
                        lemma_single_pick(s, picked);
                        assert forall|other: Seq<int>| #[trigger]
                            is_pick(s, other) && other.len() == count implies pick_value(s, other)
                            <= digit by {
                            lemma_single_pick(s, other);
                        }
                    }
                    return Some(digit as u64);
                }
                let rest = &sequence[position + 1..sequence.len()];
                let ghost behind = position as int + 1;
                assert(rest@ == s.subrange(behind, s.len() as int));
                match get_highest_possible_number(rest, num_digits - 1) {
                    Some(following) => {
                        let high = power_of_ten(num_digits - 1);
                        proof {
                            lemma_pow10_fits(num_digits as nat);
                            assert(digit as nat * pow10((num_digits - 1) as nat) + pow10(
                                (num_digits - 1) as nat,
                            ) <= pow10(num_digits as nat)) by (nonlinear_arith)
                                requires
                                    digit <= 9,
                                    pow10(num_digits as nat) == 10 * pow10((num_digits - 1) as nat),
                            ;
                            lemma_found_highest(s, position as int, count, following as nat);
                        }
                        return Some(digit as u64 * high + following);
                    },
                    None => {
                        proof {
                            assert forall|picked: Seq<int>| #[trigger]
                                is_pick(s, picked) && picked.len() == count implies s[picked[0]]
                                != digit by {
                                if s[picked[0]] == digit {
                                    lemma_rest_of_pick(s, picked);
                                    lemma_shift_out(s, behind, picked.drop_first());
                                    assert(is_pick(rest@, shifted(picked.drop_first(), -behind)));
                                }
                            }
                        }
                    },
                }
            },
            None => {},
        }
    }
    proof {
        assert forall|picked: Seq<int>| !(#[trigger] is_pick(s, picked) && picked.len() == count) by {
            if is_pick(s, picked) && picked.len() == count {
                assert(s[picked[0]] < 0);
            }
        }
    }
    None
}

/// The number that begins with the digit at `position` and goes on with
/// the highest number behind it is the highest, where that digit is the
/// first of its kind, and no pick begins with a higher one.
proof fn lemma_found_highest(s: Seq<u8>, position: int, count: nat, following: nat)
    requires
        count >= 2,
        0 <= position < s.len(),
        s[position] <= 9,
        forall|i: int| 0 <= i < position ==> s[i] != s[position],
        forall|picked: Seq<int>| #[trigger]
            is_pick(s, picked) && picked.len() == count ==> s[picked[0]] <= s[position],
        is_highest(s.subrange(position + 1, s.len() as int), (count - 1) as nat, following),
    ensures
        is_highest(s, count, s[position] as nat * pow10((count - 1) as nat) + following),
{
    let behind = position + 1;
    let part = s.subrange(behind, s.len() as int);
    let high = pow10((count - 1) as nat);
    let value = s[position] as nat * high + following;
    let tail = choose|picked: Seq<int>| #[trigger]
        is_pick(part, picked) && picked.len() == count - 1 && pick_value(part, picked) == following;
    lemma_shift_in(s, behind, tail);
    let moved = shifted(tail, behind);
    let best = seq![position] + moved;
    assert(best.drop_first() =~= moved);
    assert(is_pick(s, best)) by {
        assert forall|j: int| 0 <= j < best.len() implies 0 <= #[trigger] best[j] < s.len() && s[best[j]]
            <= 9 by {
            if j > 0 {
                assert(best[j] == moved[j - 1]);
            }
        }
        assert forall|i: int, j: int| 0 <= i < j < best.len() implies best[i] < best[j] by {
            assert(best[j] == moved[j - 1]);
            if i > 0 {
                assert(best[i] == moved[i - 1]);
            }
        }
    }
    assert(pick_value(s, best) == value);
    assert forall|picked: Seq<int>| #[trigger]
        is_pick(s, picked) && picked.len() == count implies pick_value(s, picked) <= value by {
        let rest = picked.drop_first();
        lemma_rest_of_pick(s, picked);
        lemma_pick_value_bound(s, rest);
        if s[picked[0]] == s[position] {
            assert(picked[0] >= position);
            lemma_shift_out(s, behind, rest);
            assert(is_pick(part, shifted(rest, -behind)));
            assert(pick_value(part, shifted(rest, -behind)) <= following);
        } else {
            assert(s[picked[0]] as nat * high + high <= s[position] as nat * high) by (nonlinear_arith)
                requires
                    s[picked[0]] < s[position],
            ;
        }
    }
}

/// The joltages that a line of digits writes.
pub open spec fn bank_of(line: Seq<char>) -> Option<Seq<u8>> {
    if forall|i: int| 0 <= i < line.len() ==> is_digit(#[trigger] line[i]) {
        Some(Seq::new(line.len(), |i: int| digit_value(line[i]) as u8))
    } else {
        None
    }
}

/// The banks that a text writes, one a line.
pub open spec fn banks_of(text: Seq<char>) -> Option<Seq<Seq<u8>>> {
    let lines = lines_of(text);
    if forall|i: int| 0 <= i < lines.len() ==> bank_of(#[trigger] lines[i]) is Some {
        Some(Seq::new(lines.len(), |i: int| bank_of(lines[i])->0))
    } else {
        None
    }
}

/// The sum of the highest numbers of `count` digits of the first `n` banks;
/// `None` if one of them holds fewer digits.
pub open spec fn joltage_sum(banks: Seq<Seq<u8>>, count: nat, n: int) -> Option<nat>
    decreases n,
{
    if n <= 0 {
        Some(0)
    } else {
        match (joltage_sum(banks, count, n - 1), highest(banks[n - 1], count)) {
            (Some(sum), Some(value)) => Some(sum + value),
            _ => None,
        }
    }
}

/// A bank of batteries, each with its joltage.
#[derive(Debug, Clone)]
pub struct BatteryBank {
    batteries: Vec<u8>,
}

impl View for BatteryBank {
    type V = Seq<u8>;

    closed spec fn view(&self) -> Seq<u8> {
        self.batteries@
    }
}

impl BatteryBank {
    /// A bank of batteries with the given joltages.
    pub fn new(batteries: Vec<u8>) -> (bank: BatteryBank)
        ensures
            bank@ == batteries@,
    {
        BatteryBank { batteries }
    }

    /// The joltages of the batteries.
    pub fn batteries(&self) -> (out: &Vec<u8>)
        ensures
            out@ == self@,
    {
        &self.batteries
    }

    /// Reads a bank from a line of digits. Returns `None` if a character is
    /// no digit.
    pub fn parse(line: &str) -> (out: Option<BatteryBank>)
        ensures
            match bank_of(line@) {
                Some(joltages) => out matches Some(bank) && bank@ == joltages,
                None => out is None,
            },
    {
        let chars = chars_of(line);
        Self::from_chars(&chars)
    }

    /// Reads a bank from the characters of a line of digits.
    fn from_chars(line: &Vec<char>) -> (out: Option<BatteryBank>)
        ensures
            match bank_of(line@) {
                Some(joltages) => out matches Some(bank) && bank@ == joltages,
                None => out is None,
            },
    {
        let mut batteries: Vec<u8> = Vec::new();
        let mut i: usize = 0;
        while i < line.len()
            invariant
                i <= line.len(),
                batteries.len() == i,
                forall|k: int| 0 <= k < i ==> is_digit(#[trigger] line[k]) && batteries[k] == digit_value(line[k]),
            decreases line.len() - i,
        {
            match digit_of(line[i]) {
                Some(d) => {
                    batteries.push(d);
                },
                None => {
                    return None;
                },
            }
            i += 1;
        }
        assert(batteries@ =~= bank_of(line@)->0);
        Some(BatteryBank { batteries })
    }

    /// The highest number that `num_digits` batteries of the bank write,
    /// taken in their order; one battery where `num_digits` is 0. Returns
    /// `None` if the bank holds fewer batteries.
    pub fn get_maximum_sequential_joltage(&self, num_digits: u32) -> (out: Option<u64>)
        requires
            num_digits <= 19,
        ensures
            match out {
                Some(value) => highest(self@, at_least_one(num_digits)) == Some(value as nat),
                None => highest(self@, at_least_one(num_digits)) is None,
            },
    {
        let out = get_highest_possible_number(self.batteries.as_slice(), num_digits);
        proof {
            if let Some(value) = out {
                lemma_highest_is(self@, at_least_one(num_digits), value as nat);
            }
        }
        out
    }
}

/// Banks of batteries.
#[derive(Debug, Clone)]
pub struct BatteryBankCollection {
    banks: Vec<BatteryBank>,
}

impl View for BatteryBankCollection {
    type V = Seq<Seq<u8>>;

    closed spec fn view(&self) -> Seq<Seq<u8>> {
        Seq::new(self.banks@.len(), |i: int| self.banks@[i]@)
    }
}

/// A sum over all banks is no smaller than the sum over the first of them.
proof fn lemma_joltage_sum_grows(banks: Seq<Seq<u8>>, count: nat, n: int, m: int)
    requires
        0 <= n <= m,
    ensures
        joltage_sum(banks, count, n) is None ==> joltage_sum(banks, count, m) is None,
        joltage_sum(banks, count, m) matches Some(all) ==> joltage_sum(banks, count, n)->0 <= all,
    decreases m - n,
{
    if n < m {
        lemma_joltage_sum_grows(banks, count, n, m - 1);
    }
}

impl BatteryBankCollection {
    /// The collection of the given banks.
    pub fn new(banks: Vec<BatteryBank>) -> (collection: BatteryBankCollection)
        ensures
            collection@ == Seq::new(banks@.len(), |i: int| banks@[i]@),
    {
        BatteryBankCollection { banks }
    }

    /// The number of banks.
    pub fn len(&self) -> (n: usize)
        ensures
            n == self@.len(),
    {
        self.banks.len()
    }

    /// Reads banks from text, one line of digits each. Returns `None` if a
    /// character is no digit.
    pub fn parse(text: &str) -> (out: Option<BatteryBankCollection>)
        ensures
            match banks_of(text@) {
                Some(banks) => out matches Some(collection) && collection@ == banks,
                None => out is None,
            },
    {
        let chars = chars_of(text);
        let lines = split_lines(&chars);
        let ghost texts = lines_of(text@);
        let mut banks: Vec<BatteryBank> = Vec::new();
        let mut i: usize = 0;
        while i < lines.len()
            invariant
                i <= lines.len(),
                texts == lines_of(text@),
                texts == row_views(lines@),
                banks.len() == i,
                forall|k: int| 0 <= k < i ==> bank_of(#[trigger] texts[k]) == Some(banks[k]@),
            decreases lines.len() - i,
        {
            assert(texts[i as int] == lines[i as int]@);
            match BatteryBank::from_chars(&lines[i]) {
                Some(bank) => {
                    banks.push(bank);
                },
                None => {
                    return None;
                },
            }
            i += 1;
        }
        let collection = BatteryBankCollection { banks };
        assert(collection@ =~= banks_of(text@)->0);
        Some(collection)
    }

    /// The sum of the highest numbers that `num_digits` batteries of each
    /// bank write. Returns `None` if a bank holds fewer batteries, or if
    /// the sum is too large for the machine.
    pub fn get_maximum_joltage(&self, num_digits: u32) -> (out: Option<u64>)
        requires
            num_digits <= 19,
        ensures
            out == match joltage_sum(self@, at_least_one(num_digits), self@.len() as int) {
                Some(sum) => if sum <= u64::MAX {
                    Some(sum as u64)
                } else {
                    None
                },
                None => None,
            },
    {
        let ghost count = at_least_one(num_digits);
        let mut sum: u64 = 0;
        let mut i: usize = 0;
        while i < self.banks.len()
            invariant
                i <= self.banks.len(),
                num_digits <= 19,
                count == at_least_one(num_digits),
                self@.len() == self.banks.len(),
                joltage_sum(self@, count, i as int) == Some(sum as nat),
            decreases self.banks.len() - i,
        {
            assert(self@[i as int] == self.banks[i as int]@);
            proof {
                lemma_joltage_sum_grows(self@, count, i + 1, self@.len() as int);
            }
            let value = match self.banks[i].get_maximum_sequential_joltage(num_digits) {
                Some(value) => value,
                None => {
                    return None;
                },
            };
            sum = match sum.checked_add(value) {
                Some(more) => more,
                None => {
                    return None;
                },
            };
            i += 1;
        }
        Some(sum)
    }
}

} // verus!
