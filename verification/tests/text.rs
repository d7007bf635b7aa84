use advent::text::{
    chars_of, copy_range, digit_of, find_from, is_space_char, parse_digits, parse_signed,
    parse_unsigned, split_lines, split_once, trim, widest,
};

fn chars(s: &str) -> Vec<char> {
    s.chars().collect()
}

fn lines(s: &str) -> Vec<String> {
    split_lines(&chars(s)).iter().map(|line| line.iter().collect()).collect()
}

#[test]
fn characters() {
    assert_eq!(chars_of("a^S"), vec!['a', '^', 'S']);
    assert_eq!(chars_of(""), Vec::<char>::new());
    assert_eq!(chars_of("é→"), vec!['é', '→']);
    assert_eq!(copy_range(&chars("hello"), 1, 3), chars("el"));
    assert_eq!(copy_range(&chars("hello"), 2, 2), chars(""));
    assert_eq!(find_from(&chars("a-b-c"), '-', 0), 1);
    assert_eq!(find_from(&chars("a-b-c"), '-', 2), 3);
    assert_eq!(find_from(&chars("a-b-c"), '-', 4), 5);
    assert_eq!(find_from(&chars("a-b-c"), '-', 5), 5);
    assert_eq!(split_once(&chars("a-b-c"), '-'), Some((chars("a"), chars("b-c"))));
    assert_eq!(split_once(&chars("-"), '-'), Some((chars(""), chars(""))));
    assert_eq!(split_once(&chars("abc"), '-'), None);
}

#[test]
fn lines_as_the_standard_library_cuts_them() {
    for text in [
        "", "\n", "a", "a\n", "a\nb", "a\nb\n", "a\n\nb", "\n\n", "a\r\nb\r\n", "a\r", "a\r\n",
        "\r\n", "\r", "a\rb\n", "a\n\r\nb", "a\r\r\n", "\r\n\r\n", " a \n\tb",
    ] {
        let expected: Vec<String> = text.lines().map(|line| line.to_string()).collect();
        assert_eq!(lines(text), expected, "{:?}", text);
    }
}

#[test]
fn widest_row() {
    assert_eq!(widest(&vec![chars("ab"), chars("abcd"), chars("")]), 4);
    assert_eq!(widest(&Vec::<Vec<char>>::new()), 0);
    assert_eq!(widest(&vec![chars("")]), 0);
}

#[test]
fn digit_characters() {
    assert_eq!(digit_of('0'), Some(0));
    assert_eq!(digit_of('9'), Some(9));
    assert_eq!(digit_of('a'), None);
    assert_eq!(digit_of('/'), None);
    assert_eq!(digit_of(':'), None);
    assert_eq!(digit_of('٣'), None);
}

#[test]
fn unsigned_numbers_as_the_standard_library_reads_them() {
    for text in [
        "0", "7", "007", "+7", "+", "", "-7", "-0", " 7", "7 ", "1_000", "12a", "++7", "+-7",
        "18446744073709551615", "18446744073709551616", "99999999999999999999999", "٣",
        "00000000000000000000000000001",
    ] {
        assert_eq!(parse_unsigned(&chars(text), u64::MAX), text.parse::<u64>().ok(), "{:?}", text);
    }
    assert_eq!(parse_unsigned(&chars("255"), 255), Some(255));
    assert_eq!(parse_unsigned(&chars("256"), 255), None);
    assert_eq!(parse_digits(&chars("x12"), 1, 100), Some(12));
    assert_eq!(parse_digits(&chars("x12"), 3, 100), None);
    assert_eq!(parse_digits(&chars("x+2"), 1, 100), None);
}

#[test]
fn signed_numbers_as_the_standard_library_reads_them() {
    for text in [
        "0", "7", "-7", "+7", "-0", "+0", "-", "+", "", "--7", "-+7", "+-7", " 7", "32767",
        "32768", "-32767", "-32768", "-32769", "007", "-007", "1e3",
    ] {
        let expected = text.parse::<i16>().ok().filter(|v| *v != i16::MIN).map(i64::from);
        assert_eq!(parse_signed(&chars(text), 32767), expected, "{:?}", text);
    }
}

#[test]
fn white_space_as_the_standard_library_knows_it() {
    let mut code = 0u32;
    while code <= 0x10FFFF {
        if let Some(c) = char::from_u32(code) {
            assert_eq!(is_space_char(c), c.is_whitespace(), "{:x}", code);
        }
        code += 1;
    }
}

#[test]
fn trimming_as_the_standard_library_does_it() {
    for text in ["", " ", "a", " a", "a ", "  a b  ", "\t+\r\n", " \u{a0}x\u{3000} ", "   ", "a\u{200b}"] {
        assert_eq!(trim(&chars(text)), chars(text.trim()), "{:?}", text);
    }
}
