//! A sheet of homework: columns of numbers, each with the operation that
//! joins them. The numbers of a column are read line by line, or digit
//! column by digit column.

use crate::text::{
    chars_of, copy_range, digit_of, digit_value, is_digit, is_space, is_space_char, lines_of,
    max_len, parse_unsigned, row_views, split_lines, trim, trimmed, unsigned_of, widest,
    lemma_max_len_bounds,
};
use vstd::prelude::*;

verus! {

/// An operation that joins numbers.
#[derive(Debug, Clone, Copy, PartialEq, Eq)]
pub enum Operation {
    Multiply,
    Addition,
}

/// The sum of the numbers.
pub open spec fn sum_of(numbers: Seq<usize>) -> nat
    decreases numbers.len(),
{
    if numbers.len() == 0 {
        0
    } else {
        sum_of(numbers.drop_last()) + numbers.last() as nat
    }
}

/// The product of the numbers.
pub open spec fn product_of(numbers: Seq<usize>) -> nat
    decreases numbers.len(),
{
    if numbers.len() == 0 {
        1
    } else {
        product_of(numbers.drop_last()) * numbers.last() as nat
    }
}

/// The operation that a text writes: `+` or `*`.
pub open spec fn operation_of(s: Seq<char>) -> Option<Operation> {
    if s == seq!['+'] {
        Some(Operation::Addition)
    } else if s == seq!['*'] {
        Some(Operation::Multiply)
    } else {
        None
    }
}

impl Operation {
    /// What the operation makes of the numbers.
    pub open spec fn result(self, numbers: Seq<usize>) -> nat {
        match self {
            Operation::Multiply => product_of(numbers),
            Operation::Addition => sum_of(numbers),
        }
    }

    /// Reads `+` or `*`. Returns `None` for any other text.
    pub fn parse(text: &str) -> (out: Option<Operation>)
        ensures
            out == operation_of(text@),
    {
        let chars = chars_of(text);
        Self::from_chars(&chars)
    }

    /// Reads `+` or `*` from characters.
    fn from_chars(s: &Vec<char>) -> (out: Option<Operation>)
        ensures
            out == operation_of(s@),
    {
        if s.len() == 1 && s[0] == '+' {
            assert(s@ =~= seq!['+']);
            Some(Operation::Addition)
        } else if s.len() == 1 && s[0] == '*' {
            assert(s@ =~= seq!['*']);
            Some(Operation::Multiply)
        } else {
            assert(s@ != seq!['+'] && s@ != seq!['*']) by {
                if s@ == seq!['+'] || s@ == seq!['*'] {
                    assert(s@.len() == 1);
                    assert(seq!['+'][0] == '+' && seq!['*'][0] == '*');
                }
            }
            None
        }
    }

    /// Joins the numbers with the operation: their sum or their product.
    /// Returns `None` if the result is too large for the machine.
    pub fn calculate(&self, numbers: &[usize]) -> (out: Option<usize>)
        ensures
            out == if self.result(numbers@) <= usize::MAX {
                Some(self.result(numbers@) as usize)
            } else {
                None
            },
    {
        match self {
            Operation::Multiply => multiply_all(numbers),
            Operation::Addition => add_all(numbers),
        }
    }
}

/// A sum over more numbers is no smaller.
proof fn lemma_sum_of_grows(numbers: Seq<usize>, n: int)
    requires
        0 <= n <= numbers.len(),
    ensures
        sum_of(numbers.take(n)) <= sum_of(numbers),
    decreases numbers.len() - n,
{
    if n < numbers.len() {
        lemma_sum_of_grows(numbers, n + 1);
        assert(numbers.take(n + 1).drop_last() =~= numbers.take(n));
    } else {
        assert(numbers.take(n) =~= numbers);
    }
}

/// A product of numbers none of which is zero is no smaller than the
/// product of the first of them.
proof fn lemma_product_of_grows(numbers: Seq<usize>, n: int)
    requires
        0 <= n <= numbers.len(),
        forall|i: int| 0 <= i < numbers.len() ==> numbers[i] != 0,
    ensures
        1 <= product_of(numbers.take(n)) <= product_of(numbers),
    decreases numbers.len() - n,
{
    lemma_product_positive(numbers.take(n));
    if n < numbers.len() {
        lemma_product_of_grows(numbers, n + 1);
        let longer = numbers.take(n + 1);
        assert(longer.drop_last() =~= numbers.take(n));
        assert(longer.last() == numbers[n]);
        assert(product_of(numbers.take(n)) <= product_of(numbers.take(n)) * numbers[n])
            by (nonlinear_arith)
            requires
                numbers[n] >= 1,
        ;
    } else {
        assert(numbers.take(n) =~= numbers);
    }
}

/// A product of numbers none of which is zero is not zero.
proof fn lemma_product_positive(numbers: Seq<usize>)
    requires
        forall|i: int| 0 <= i < numbers.len() ==> numbers[i] != 0,
    ensures
        product_of(numbers) >= 1,
    decreases numbers.len(),
{
    if numbers.len() > 0 {
        lemma_product_positive(numbers.drop_last());
        assert(product_of(numbers.drop_last()) * numbers.last() >= 1) by (nonlinear_arith)
            requires
                product_of(numbers.drop_last()) >= 1,
                numbers.last() >= 1,
        ;
    }
}

/// A product with a zero among its numbers is zero.
proof fn lemma_product_zero(numbers: Seq<usize>, at: int)
    requires
        0 <= at < numbers.len(),
        numbers[at] == 0,
    ensures
        product_of(numbers) == 0,
    decreases numbers.len(),
{
    if at < numbers.len() - 1 {
        lemma_product_zero(numbers.drop_last(), at);
        assert(0 * numbers.last() == 0) by (nonlinear_arith);
    } else {
        assert(product_of(numbers.drop_last()) * 0 == 0) by (nonlinear_arith);
    }
}

/// The sum of the numbers, or `None` if it is too large for the machine.
fn add_all(numbers: &[usize]) -> (out: Option<usize>)
    ensures
        out == if sum_of(numbers@) <= usize::MAX {
            Some(sum_of(numbers@) as usize)
        } else {
            None
        },
{
    let mut sum: usize = 0;
    let mut i: usize = 0;
    assert(numbers@.take(0) =~= Seq::<usize>::empty());
    while i < numbers.len()
        invariant
            i <= numbers.len(),
            sum == sum_of(numbers@.take(i as int)),
        decreases numbers.len() - i,
    {
        proof {
            assert(numbers@.take(i + 1).drop_last() =~= numbers@.take(i as int));
            lemma_sum_of_grows(numbers@, i + 1);
        }
        sum = match sum.checked_add(numbers[i]) {
            Some(more) => more,
            None => {
                return None;
            },
        };
        i += 1;
    }
    assert(numbers@.take(numbers.len() as int) =~= numbers@);
    Some(sum)
}

/// The product of the numbers, or `None` if it is too large for the
/// machine.
fn multiply_all(numbers: &[usize]) -> (out: Option<usize>)
    ensures
        out == if product_of(numbers@) <= usize::MAX {
            Some(product_of(numbers@) as usize)
        } else {
            None
        },
{
    let mut i: usize = 0;
    while i < numbers.len()
        invariant
            i <= numbers.len(),
            forall|k: int| 0 <= k < i ==> numbers[k] != 0,
        decreases numbers.len() - i,
    {
        if numbers[i] == 0 {
            proof {
                lemma_product_zero(numbers@, i as int);
            }
            return Some(0);
        }
        i += 1;
    }
    let mut product: usize = 1;
    let mut i: usize = 0;
    assert(numbers@.take(0) =~= Seq::<usize>::empty());
    while i < numbers.len()
        invariant
            i <= numbers.len(),
            forall|k: int| 0 <= k < numbers.len() ==> numbers[k] != 0,
            product == product_of(numbers@.take(i as int)),
        decreases numbers.len() - i,
    {
        proof {
            assert(numbers@.take(i + 1).drop_last() =~= numbers@.take(i as int));
            lemma_product_of_grows(numbers@, i + 1);
        }
        product = match product.checked_mul(numbers[i]) {
            Some(more) => more,
            None => {
                return None;
            },
        };
        i += 1;
    }
    assert(numbers@.take(numbers.len() as int) =~= numbers@);
    Some(product)
}

/// The number that a line writes, white space around it passed over.
pub open spec fn number_of(line: Seq<char>) -> Option<usize> {
    match unsigned_of(trimmed(line)) {
        Some(v) => if v <= usize::MAX {
            Some(v as usize)
        } else {
            None
        },
        None => None,
    }
}

/// The numbers that the lines write.
pub open spec fn numbers_of(lines: Seq<Seq<char>>) -> Option<Seq<usize>> {
    if forall|i: int| 0 <= i < lines.len() ==> number_of(#[trigger] lines[i]) is Some {
        Some(Seq::new(lines.len(), |i: int| number_of(lines[i])->0))
    } else {
        None
    }
}

/// The number that the digits in place `x` of the first `n` lines write,
/// read from the first line down. Characters that are no digits are passed
/// over.
pub open spec fn digits_down(lines: Seq<Seq<char>>, x: int, n: int) -> nat
    decreases n,
{
    if n <= 0 {
        0
    } else if 0 <= x < lines[n - 1].len() && is_digit(lines[n - 1][x]) {
        digits_down(lines, x, n - 1) * 10 + digit_value(lines[n - 1][x])
    } else {
        digits_down(lines, x, n - 1)
    }
}

/// Whether one of the first `n` lines has a digit in place `x`.
pub open spec fn has_digit(lines: Seq<Seq<char>>, x: int, n: int) -> bool {
    exists|y: int| 0 <= y < n && 0 <= x < (#[trigger] lines[y]).len() && is_digit(lines[y][x])
}

/// The numbers that the digits in the first `upto` places write, read
/// down, from the first place to the last. A place without a digit has
/// no number.
pub open spec fn numbers_down(lines: Seq<Seq<char>>, upto: int) -> Seq<nat>
    decreases upto,
{
    if upto <= 0 {
        Seq::empty()
    } else if has_digit(lines, upto - 1, lines.len() as int) {
        numbers_down(lines, upto - 1).push(digits_down(lines, upto - 1, lines.len() as int))
    } else {
        numbers_down(lines, upto - 1)
    }
}

/// The contents of each of the `texts`.
pub open spec fn text_views(texts: Seq<String>) -> Seq<Seq<char>> {
    Seq::new(texts.len(), |i: int| texts[i]@)
}

/// The calculation that a column writes when each line but the last is a
/// number, and the last line is the operation.
pub open spec fn normal_of(lines: Seq<Seq<char>>) -> Option<(Seq<usize>, Operation)> {
    if lines.len() == 0 {
        None
    } else {
        match (numbers_of(lines.drop_last()), operation_of(trimmed(lines.last()))) {
            (Some(numbers), Some(operation)) => Some((numbers, operation)),
            _ => None,
        }
    }
}

/// The calculation that a column writes when its numbers are read down,
/// place by place, and the last line is the operation.
pub open spec fn cephalopod_of(lines: Seq<Seq<char>>) -> Option<(Seq<usize>, Operation)> {
    let numbers = numbers_down(lines, max_len(lines) as int);
    if lines.len() == 0 {
        None
    } else if forall|i: int| 0 <= i < numbers.len() ==> #[trigger] numbers[i] <= usize::MAX {
        match operation_of(trimmed(lines.last())) {
            Some(operation) => Some((Seq::new(numbers.len(), |i: int| numbers[i] as usize), operation)),
            None => None,
        }
    } else {
        None
    }
}

/// Numbers and the operation that joins them.
#[derive(Debug, Clone)]
pub struct HomeworkCalculation {
    numbers: Vec<usize>,
    operation: Operation,
}

impl View for HomeworkCalculation {
    type V = (Seq<usize>, Operation);

    closed spec fn view(&self) -> (Seq<usize>, Operation) {
        (self.numbers@, self.operation)
    }
}

/// The characters of each of the texts.
fn chars_of_all(texts: &[String]) -> (out: Vec<Vec<char>>)
    ensures
        row_views(out@) == text_views(texts@),
{
    let mut out: Vec<Vec<char>> = Vec::new();
    let mut i: usize = 0;
    while i < texts.len()
        invariant
            i <= texts.len(),
            out.len() == i,
            forall|k: int| 0 <= k < i ==> (#[trigger] out[k])@ == texts[k]@,
        decreases texts.len() - i,
    {
        out.push(chars_of(texts[i].as_str()));
        i += 1;
    }
    assert(row_views(out@) =~= text_views(texts@));
    out
}

/// A number in a column does not get smaller as more lines are read.
proof fn lemma_digits_down_grows(lines: Seq<Seq<char>>, x: int, n: int, m: int)
    requires
        n <= m,
    ensures
        digits_down(lines, x, n) <= digits_down(lines, x, m),
    decreases m - n,
{
    if n < m {
        lemma_digits_down_grows(lines, x, n, m - 1);
    }
}

impl HomeworkCalculation {
    /// A calculation of the given numbers and operation.
    pub fn new(numbers: Vec<usize>, operation: Operation) -> (out: HomeworkCalculation)
        ensures
            out@ == (numbers@, operation),
    {
        HomeworkCalculation { numbers, operation }
    }

    /// The numbers of the calculation.
    pub fn numbers(&self) -> (out: &Vec<usize>)
        ensures
            out@ == self@.0,
    {
        &self.numbers
    }

    /// The operation that joins the numbers.
    pub fn operation(&self) -> (out: Operation)
        ensures
            out == self@.1,
    {
        self.operation
    }

    /// Reads a column whose lines but the last are numbers and whose last
    /// line is the operation. White space around them is passed over.
    /// Returns `None` for any other column.
    pub fn normal_from_column(value: &[String]) -> (out: Option<HomeworkCalculation>)
        ensures
            match normal_of(text_views(value@)) {
                Some(calculation) => out matches Some(c) && c@ == calculation,
                None => out is None,
            },
    {
        let lines = chars_of_all(value);
        Self::normal_from_lines(&lines)
    }

    /// Reads a column whose numbers are written downwards: the digits in
    /// the same place of each line make up one number, the first line
    /// giving the highest digit. The last line holds the operation. The
    /// numbers come in the order of their places. Returns `None` if the
    /// column is empty, if the operation is none, or if a number is too
    /// large for the machine.
    pub fn cephalopod_from_column(value: &[String]) -> (out: Option<HomeworkCalculation>)
        ensures
            match cephalopod_of(text_views(value@)) {
                Some(calculation) => out matches Some(c) && c@ == calculation,
                None => out is None,
            },
    {
        let lines = chars_of_all(value);
        Self::cephalopod_from_lines(&lines)
    }

    /// What the operation makes of the numbers, or `None` if that is too
    /// large for the machine.
    pub fn get_result(&self) -> (out: Option<usize>)
        ensures
            out == if self@.1.result(self@.0) <= usize::MAX {
                Some(self@.1.result(self@.0) as usize)
            } else {
                None
            },
    {
        self.operation.calculate(self.numbers.as_slice())
    }

    /// Reads a column of numbers with the operation in its last line.
    fn normal_from_lines(lines: &Vec<Vec<char>>) -> (out: Option<HomeworkCalculation>)
        ensures
            match normal_of(row_views(lines@)) {
                Some(calculation) => out matches Some(c) && c@ == calculation,
                None => out is None,
            },
    {
        let ghost texts = row_views(lines@);
        if lines.len() == 0 {
            return None;
        }
        let count = lines.len() - 1;
        let ghost upper = texts.drop_last();
        let mut numbers: Vec<usize> = Vec::new();
        let mut i: usize = 0;
        while i < count
            invariant
                i <= count == lines.len() - 1,
                texts == row_views(lines@),
                upper == texts.drop_last(),
                numbers.len() == i,
                forall|k: int| 0 <= k < i ==> number_of(#[trigger] upper[k]) == Some(numbers[k]),
            decreases count - i,
        {
            assert(upper[i as int] == lines[i as int]@);
            let text = trim(&lines[i]);
            match parse_unsigned(&text, usize::MAX as u64) {
                Some(number) => {
                    numbers.push(number as usize);
                },
                None => {
                    return None;
                },
            }
            i += 1;
        }
        assert(texts.last() == lines[count as int]@);
        let last = trim(&lines[count]);
        match Operation::from_chars(&last) {
            Some(operation) => {
                assert(numbers@ =~= numbers_of(upper)->0);
                Some(HomeworkCalculation { numbers, operation })
            },
            None => None,
        }
    }

    /// Reads a column of numbers written downwards with the operation in
    /// its last line.
    fn cephalopod_from_lines(lines: &Vec<Vec<char>>) -> (out: Option<HomeworkCalculation>)
        ensures
            match cephalopod_of(row_views(lines@)) {
                Some(calculation) => out matches Some(c) && c@ == calculation,
                None => out is None,
            },
    {
        let ghost texts = row_views(lines@);
        if lines.len() == 0 {
            return None;
        }
        let width = widest(lines);
        proof {
            lemma_max_len_bounds(texts);
        }
        let mut found: Vec<Option<usize>> = Vec::new();
        let mut x: usize = 0;
        while x < width
            invariant
                x <= width,
                found.len() == x,
                forall|c: int| 0 <= c < x ==> found[c] is None,
            decreases width - x,
        {
            found.push(None);
            x += 1;
        }
        let mut y: usize = 0;
        while y < lines.len()
            invariant
                y <= lines.len(),
                texts == row_views(lines@),
                width == max_len(texts),
                forall|r: int| 0 <= r < texts.len() ==> #[trigger] texts[r].len() <= width,
                found.len() == width,
                forall|c: int|
                    0 <= c < width ==> (#[trigger] found[c]) == if has_digit(texts, c, y as int) {
                        Some(digits_down(texts, c, y as int) as usize)
                    } else {
                        None
                    },
                forall|c: int|
                    0 <= c < width ==> #[trigger] digits_down(texts, c, y as int) <= usize::MAX,
            decreases lines.len() - y,
        {
            let line = &lines[y];
            assert(texts[y as int] == line@);
            let mut x: usize = 0;
            while x < line.len()
                invariant
                    x <= line.len() <= width,
                    y < lines.len(),
                    texts == row_views(lines@),
                    texts[y as int] == line@,
                    width == max_len(texts),
                    found.len() == width,
                    forall|c: int|
                        0 <= c < x ==> (#[trigger] found[c]) == if has_digit(texts, c, y + 1) {
                            Some(digits_down(texts, c, y + 1) as usize)
                        } else {
                            None
                        },
                    forall|c: int|
                        0 <= c < x ==> #[trigger] digits_down(texts, c, y + 1) <= usize::MAX,
                    forall|c: int|
                        x <= c < width ==> (#[trigger] found[c]) == if has_digit(texts, c, y as int) {
                            Some(digits_down(texts, c, y as int) as usize)
                        } else {
                            None
                        },
                    forall|c: int|
                        0 <= c < width ==> #[trigger] digits_down(texts, c, y as int) <= usize::MAX,
                decreases line.len() - x,
            {
                proof {
                    lemma_has_digit_step(texts, x as int, y as int);
                }
                match digit_of(line[x]) {
                    Some(digit) => {
                        let so_far: usize = match found[x] {
                            Some(n) => n,
                            None => 0,
                        };
                        assert(so_far == digits_down(texts, x as int, y as int)) by {
                            if !has_digit(texts, x as int, y as int) {
                                lemma_no_digit_is_zero(texts, x as int, y as int);
                            }
                        }
                        let next = match so_far.checked_mul(10) {
                            Some(tens) => tens.checked_add(digit as usize),
                            None => None,
                        };
                        match next {
                            Some(n) => {
                                found.set(x, Some(n));
                            },
                            None => {
                                proof {
                                    lemma_digits_down_grows(texts, x as int, y + 1, texts.len() as int);
                                    lemma_too_large_number(texts, x as int, width as int);
                                }
                                return None;
                            },
                        }
                    },
                    None => {},
                }
                x += 1;
            }
            proof {
                assert forall|c: int| 0 <= c < width implies (#[trigger] found[c]) == if has_digit(
                    texts,
                    c,
                    y + 1,
                ) {
                    Some(digits_down(texts, c, y + 1) as usize)
                } else {
                    None
                } by {
                    lemma_has_digit_step(texts, c, y as int);
                }
                assert forall|c: int| 0 <= c < width implies #[trigger] digits_down(texts, c, y + 1)
                    <= usize::MAX by {
                    if c >= line.len() {
                        assert(digits_down(texts, c, y + 1) == digits_down(texts, c, y as int));
                    }
                }
            }
            y += 1;
        }
        let mut numbers: Vec<usize> = Vec::new();
        let mut x: usize = 0;
        while x < width
            invariant
                x <= width == max_len(texts),
                found.len() == width,
                texts.len() == lines.len(),
                forall|c: int|
                    0 <= c < width ==> (#[trigger] found[c]) == if has_digit(
                        texts,
                        c,
                        texts.len() as int,
                    ) {
                        Some(digits_down(texts, c, texts.len() as int) as usize)
                    } else {
                        None
                    },
                forall|c: int|
                    0 <= c < width ==> #[trigger] digits_down(texts, c, texts.len() as int) <= usize::MAX,
                numbers@.len() == numbers_down(texts, x as int).len(),
                forall|k: int|
                    0 <= k < numbers@.len() ==> #[trigger] numbers@[k] == numbers_down(texts, x as int)[k],
            decreases width - x,
        {
            match found[x] {
                Some(n) => {
                    numbers.push(n);
                },
                None => {},
            }
            x += 1;
        }
        assert(texts.last() == lines[lines.len() - 1]@);
        let last = trim(&lines[lines.len() - 1]);
        match Operation::from_chars(&last) {
            Some(operation) => {
                proof {
                    let all = numbers_down(texts, width as int);
                    assert forall|i: int| 0 <= i < all.len() implies #[trigger] all[i] <= usize::MAX by {
                        assert(numbers@[i] == all[i]);
                    }
                    assert(numbers@ =~= Seq::new(all.len(), |i: int| all[i] as usize));
                }
                Some(HomeworkCalculation { numbers, operation })
            },
            None => None,
        }
    }
}

/// What one more line adds to the digits in a place.
proof fn lemma_has_digit_step(lines: Seq<Seq<char>>, x: int, y: int)
    requires
        0 <= y < lines.len(),
    ensures
        has_digit(lines, x, y + 1) == (has_digit(lines, x, y) || (0 <= x < lines[y].len() && is_digit(
            lines[y][x],
        ))),
{
    if has_digit(lines, x, y + 1) {
        let r = choose|r: int| 0 <= r < y + 1 && 0 <= x < (#[trigger] lines[r]).len() && is_digit(lines[r][x]);
        if r < y {
            assert(has_digit(lines, x, y));
        }
    }
    if has_digit(lines, x, y) {
        let r = choose|r: int| 0 <= r < y && 0 <= x < (#[trigger] lines[r]).len() && is_digit(lines[r][x]);
        assert(0 <= r < y + 1 && 0 <= x < lines[r].len() && is_digit(lines[r][x]));
    }
    if 0 <= x < lines[y].len() && is_digit(lines[y][x]) {
        assert(0 <= y < y + 1 && 0 <= x < lines[y].len() && is_digit(lines[y][x]));
    }
}

/// A place without digits writes zero.
proof fn lemma_no_digit_is_zero(lines: Seq<Seq<char>>, x: int, n: int)
    requires
        0 <= n <= lines.len(),
        !has_digit(lines, x, n),
    ensures
        digits_down(lines, x, n) == 0,
    decreases n,
{
    if n > 0 {
        lemma_has_digit_step(lines, x, n - 1);
        lemma_no_digit_is_zero(lines, x, n - 1);
    }
}

/// A number that is too large is among the numbers of the column.
proof fn lemma_too_large_number(lines: Seq<Seq<char>>, x: int, upto: int)
    requires
        0 <= x < upto,
        digits_down(lines, x, lines.len() as int) > usize::MAX,
    ensures
        exists|i: int|
            0 <= i < numbers_down(lines, upto).len() && #[trigger] numbers_down(lines, upto)[i]
                > usize::MAX,
    decreases upto,
{
    if x == upto - 1 {
        if !has_digit(lines, x, lines.len() as int) {
            lemma_no_digit_is_zero(lines, x, lines.len() as int);
        }
        let all = numbers_down(lines, upto);
        assert(all[all.len() - 1] > usize::MAX);
    } else {
        lemma_too_large_number(lines, x, upto - 1);
        let fewer = numbers_down(lines, upto - 1);
        let i = choose|i: int| 0 <= i < fewer.len() && #[trigger] fewer[i] > usize::MAX;
        assert(numbers_down(lines, upto)[i] == fewer[i]);
    }
}

/// The places of the first `upto` characters of `line` that are no white
/// space, in ascending order.
pub open spec fn column_starts(line: Seq<char>, upto: int) -> Seq<int>
    decreases upto,
{
    if upto <= 0 {
        Seq::empty()
    } else if !is_space(line[upto - 1]) {
        column_starts(line, upto - 1).push(upto - 1)
    } else {
        column_starts(line, upto - 1)
    }
}

/// The part of `line` that belongs to column `i`: from the start of the
/// column up to the start of the next, or to the end of the line.
pub open spec fn cell(line: Seq<char>, starts: Seq<int>, i: int) -> Seq<char> {
    let end = if i + 1 < starts.len() && starts[i + 1] < line.len() {
        starts[i + 1]
    } else {
        line.len() as int
    };
    line.subrange(starts[i], end)
}

/// The columns of a sheet, each with its part of every line. A column
/// starts where the last line has a character that is no white space. A
/// line that ends before the start of a column makes the text no sheet.
pub open spec fn sheet_of(text: Seq<char>) -> Option<Seq<Seq<Seq<char>>>> {
    let lines = lines_of(text);
    if lines.len() == 0 {
        None
    } else {
        let starts = column_starts(lines.last(), lines.last().len() as int);
        if forall|i: int, y: int|
            0 <= i < starts.len() && 0 <= y < lines.len() ==> #[trigger] starts[i] <= (
            #[trigger] lines[y]).len() {
            Some(Seq::new(starts.len(), |i: int| Seq::new(lines.len(), |y: int| cell(lines[y], starts, i))))
        } else {
            None
        }
    }
}

/// The calculation that a column writes, its numbers read line by line or,
/// with `down`, place by place.
pub open spec fn calculation_of(down: bool, lines: Seq<Seq<char>>) -> Option<(Seq<usize>, Operation)> {
    if down {
        cephalopod_of(lines)
    } else {
        normal_of(lines)
    }
}

/// The calculations that the columns write.
pub open spec fn calculations_of(down: bool, columns: Seq<Seq<Seq<char>>>) -> Option<
    Seq<(Seq<usize>, Operation)>,
> {
    if forall|i: int| 0 <= i < columns.len() ==> calculation_of(down, #[trigger] columns[i]) is Some {
        Some(Seq::new(columns.len(), |i: int| calculation_of(down, columns[i])->0))
    } else {
        None
    }
}

/// The result of a calculation, if it is a machine number.
pub open spec fn result_of(calculation: (Seq<usize>, Operation)) -> Option<usize> {
    if calculation.1.result(calculation.0) <= usize::MAX {
        Some(calculation.1.result(calculation.0) as usize)
    } else {
        None
    }
}

/// The results of the calculations that the columns write.
pub open spec fn results_of(down: bool, columns: Seq<Seq<Seq<char>>>) -> Option<Seq<usize>> {
    match calculations_of(down, columns) {
        Some(calculations) => if forall|i: int|
            0 <= i < calculations.len() ==> result_of(#[trigger] calculations[i]) is Some {
            Some(Seq::new(calculations.len(), |i: int| result_of(calculations[i])->0))
        } else {
            None
        },
        None => None,
    }
}

/// The contents of each of the columns.
pub open spec fn column_views(columns: Seq<Vec<Vec<char>>>) -> Seq<Seq<Seq<char>>> {
    Seq::new(columns.len(), |i: int| row_views(columns[i]@))
}

/// What each of the calculations holds.
pub open spec fn calculation_views(calculations: Seq<HomeworkCalculation>) -> Seq<
    (Seq<usize>, Operation),
> {
    Seq::new(calculations.len(), |i: int| calculations[i]@)
}

/// A sheet of homework, column by column.
#[derive(Debug, Clone)]
pub struct HomeworkSheet {
    columns: Vec<Vec<Vec<char>>>,
}

impl View for HomeworkSheet {
    type V = Seq<Seq<Seq<char>>>;

    closed spec fn view(&self) -> Seq<Seq<Seq<char>>> {
        column_views(self.columns@)
    }
}

/// The places of the characters of `line` that are no white space.
fn find_column_starts(line: &Vec<char>) -> (starts: Vec<usize>)
    ensures
        starts@.len() == column_starts(line@, line@.len() as int).len(),
        forall|i: int| 0 <= i < starts@.len() ==> #[trigger] starts@[i] == column_starts(
            line@,
            line@.len() as int,
        )[i],
{
    let mut starts: Vec<usize> = Vec::new();
    let mut x: usize = 0;
    while x < line.len()
        invariant
            x <= line.len(),
            starts@.len() == column_starts(line@, x as int).len(),
            forall|i: int| 0 <= i < starts@.len() ==> #[trigger] starts@[i] == column_starts(line@, x as int)[i],
        decreases line.len() - x,
    {
        if !is_space_char(line[x]) {
            starts.push(x);
        }
        x += 1;
    }
    starts
}

impl HomeworkSheet {
    /// Reads a sheet from text. Returns `None` if the text has no line, or
    /// if a line ends before the start of a column.
    pub fn parse(text: &str) -> (out: Option<HomeworkSheet>)
        ensures
            match sheet_of(text@) {
                Some(columns) => out matches Some(sheet) && sheet@ == columns,
                None => out is None,
            },
    {
        let chars = chars_of(text);
        let lines = split_lines(&chars);
        let ghost texts = lines_of(text@);
        if lines.len() == 0 {
            return None;
        }
        assert(texts.last() == lines[lines.len() - 1]@);
        let starts = find_column_starts(&lines[lines.len() - 1]);
        let ghost places = column_starts(texts.last(), texts.last().len() as int);
        let mut columns: Vec<Vec<Vec<char>>> = Vec::new();
        let mut i: usize = 0;
        while i < starts.len()
            invariant
                i <= starts.len() == places.len(),
                texts == lines_of(text@),
                texts == row_views(lines@),
                lines.len() > 0,
                places == column_starts(texts.last(), texts.last().len() as int),
                forall|k: int| 0 <= k < starts@.len() ==> #[trigger] starts@[k] == places[k],
                columns.len() == i,
                forall|k: int, y: int|
                    0 <= k < i && 0 <= y < texts.len() ==> #[trigger] places[k] <= (#[trigger] texts[y]).len(),
                forall|k: int|
                    0 <= k < i ==> row_views((#[trigger] columns[k])@) == Seq::new(
                        texts.len(),
                        |y: int| cell(texts[y], places, k),
                    ),
            decreases starts.len() - i,
        {
            let start = starts[i];
            assert(start == places[i as int]);
            let mut column: Vec<Vec<char>> = Vec::new();
            let mut y: usize = 0;
            while y < lines.len()
                invariant
                    y <= lines.len(),
                    i < starts.len() == places.len(),
                    texts == lines_of(text@),
                    texts == row_views(lines@),
                    lines.len() > 0,
                    places == column_starts(texts.last(), texts.last().len() as int),
                    forall|k: int| 0 <= k < starts@.len() ==> #[trigger] starts@[k] == places[k],
                    start == places[i as int],
                    column.len() == y,
                    forall|r: int| 0 <= r < y ==> places[i as int] <= (#[trigger] texts[r]).len(),
                    forall|r: int|
                        0 <= r < y ==> (#[trigger] column[r])@ == cell(texts[r], places, i as int),
                decreases lines.len() - y,
            {
                let line = &lines[y];
                assert(texts[y as int] == line@);
                if start > line.len() {
                    assert(!(places[i as int] <= texts[y as int].len()));
                    return None;
                }
                let end: usize = if i + 1 < starts.len() && starts[i + 1] < line.len() {
                    assert(starts@[i + 1] == places[i + 1]);
                    starts[i + 1]
                } else {
                    line.len()
                };
                assert(start <= end) by {
                    if i + 1 < starts.len() {
                        assert(starts@[i + 1] == places[i + 1]);
                        lemma_column_starts_ascend(texts.last(), texts.last().len() as int, i as int, i + 1);
                    }
                }
                column.push(copy_range(line, start, end));
                y += 1;
            }
            assert(row_views(column@) =~= Seq::new(texts.len(), |y: int| cell(texts[y], places, i as int)));
            columns.push(column);
            i += 1;
        }
        let sheet = HomeworkSheet { columns };
        assert(sheet@ =~= sheet_of(text@)->0);
        Some(sheet)
    }

    /// The number of columns.
    pub fn column_count(&self) -> (n: usize)
        ensures
            n == self@.len(),
    {
        self.columns.len()
    }

    /// The calculations of the columns, numbers read line by line or, with
    /// `down`, place by place.
    fn read_calculations(&self, down: bool) -> (out: Option<Vec<HomeworkCalculation>>)
        ensures
            match calculations_of(down, self@) {
                Some(calculations) => out matches Some(v) && calculation_views(v@) == calculations,
                None => out is None,
            },
    {
        let mut out: Vec<HomeworkCalculation> = Vec::new();
        let mut i: usize = 0;
        while i < self.columns.len()
            invariant
                i <= self.columns.len() == self@.len(),
                out.len() == i,
                forall|k: int| 0 <= k < i ==> calculation_of(down, #[trigger] self@[k]) == Some(out[k]@),
            decreases self.columns.len() - i,
        {
            assert(self@[i as int] == row_views(self.columns[i as int]@));
            let calculation = if down {
                HomeworkCalculation::cephalopod_from_lines(&self.columns[i])
            } else {
                HomeworkCalculation::normal_from_lines(&self.columns[i])
            };
            match calculation {
                Some(c) => {
                    out.push(c);
                },
                None => {
                    return None;
                },
            }
            i += 1;
        }
        assert(calculation_views(out@) =~= calculations_of(down, self@)->0);
        Some(out)
    }

    /// The results of the calculations of the columns.
    fn read_results(&self, down: bool) -> (out: Option<Vec<usize>>)
        ensures
            match results_of(down, self@) {
                Some(results) => out matches Some(v) && v@ == results,
                None => out is None,
            },
    {
        let calculations = match self.read_calculations(down) {
            Some(calculations) => calculations,
            None => {
                return None;
            },
        };
        let ghost views = calculation_views(calculations@);
        let mut out: Vec<usize> = Vec::new();
        let mut i: usize = 0;
        while i < calculations.len()
            invariant
                i <= calculations.len(),
                views == calculation_views(calculations@),
                calculations_of(down, self@) == Some(views),
                out.len() == i,
                forall|k: int| 0 <= k < i ==> result_of(#[trigger] views[k]) == Some(out[k]),
            decreases calculations.len() - i,
        {
            assert(views[i as int] == calculations[i as int]@);
            match calculations[i].get_result() {
                Some(result) => {
                    out.push(result);
                },
                None => {
                    return None;
                },
            }
            i += 1;
        }
        assert(out@ =~= results_of(down, self@)->0);
        Some(out)
    }

    /// The calculations of the columns, each line but the last of a column
    /// being a number. Returns `None` if a column writes no calculation.
    pub fn get_normal_homework_calculations(&self) -> (out: Option<Vec<HomeworkCalculation>>)
        ensures
            match calculations_of(false, self@) {
                Some(calculations) => out matches Some(v) && calculation_views(v@) == calculations,
                None => out is None,
            },
    {
        self.read_calculations(false)
    }

    /// The calculations of the columns, the numbers of a column being
    /// written downwards. Returns `None` if a column writes no calculation.
    pub fn get_cephalopod_homework_calculations(&self) -> (out: Option<Vec<HomeworkCalculation>>)
        ensures
            match calculations_of(true, self@) {
                Some(calculations) => out matches Some(v) && calculation_views(v@) == calculations,
                None => out is None,
            },
    {
        self.read_calculations(true)
    }

    /// The results of the calculations of the columns, each line but the
    /// last of a column being a number. Returns `None` if a column writes no
    /// calculation, or if a result is too large for the machine.
    pub fn get_normal_results(&self) -> (out: Option<Vec<usize>>)
        ensures
            match results_of(false, self@) {
                Some(results) => out matches Some(v) && v@ == results,
                None => out is None,
            },
    {
        self.read_results(false)
    }

    /// The results of the calculations of the columns, the numbers of a
    /// column being written downwards. Returns `None` if a column writes no
    /// calculation, or if a result is too large for the machine.
    pub fn get_cephalopod_results(&self) -> (out: Option<Vec<usize>>)
        ensures
            match results_of(true, self@) {
                Some(results) => out matches Some(v) && v@ == results,
                None => out is None,
            },
    {
        self.read_results(true)
    }
}

/// The starts of columns ascend and lie in the line.
proof fn lemma_column_starts_ascend(line: Seq<char>, upto: int, i: int, j: int)
    requires
        0 <= upto <= line.len(),
        0 <= i < j < column_starts(line, upto).len(),
    ensures
        0 <= column_starts(line, upto)[i] < column_starts(line, upto)[j] < upto,
    decreases upto,
{
    lemma_column_starts_bound(line, upto, j);
    lemma_column_starts_bound(line, upto, i);
    if upto > 0 {
        let fewer = column_starts(line, upto - 1);
        if j < fewer.len() {
            lemma_column_starts_ascend(line, upto - 1, i, j);
        } else {
            lemma_column_starts_bound(line, upto - 1, i);
        }
    }
}

/// The starts of columns lie in the line.
proof fn lemma_column_starts_bound(line: Seq<char>, upto: int, i: int)
    requires
        0 <= upto <= line.len(),
        0 <= i < column_starts(line, upto).len(),
    ensures
        0 <= column_starts(line, upto)[i] < upto,
    decreases upto,
{
    if upto > 0 {
        let fewer = column_starts(line, upto - 1);
        if i < fewer.len() {
            lemma_column_starts_bound(line, upto - 1, i);
        }
    }
}

} // verus!
