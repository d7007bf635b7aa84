use advent::product_ids::{
    detect_repetition, detect_repetition_of_length, to_digits, ProductIdRange, ProductIdRangeList,
};

const SAMPLE: &str = "11-22,95-115,998-1012,1188511880-1188511890,222220-222224,1698522-1698528,\
446443-446449,38593856-38593862,565653-565659,824824821-824824827,2121212118-2121212124";

#[test]
fn sample_ranges() {
    let ranges = ProductIdRangeList::parse(SAMPLE).unwrap();
    assert_eq!(ranges.len(), 11);
    assert_eq!(ranges.sum_twice_invalid_ids(), Some(1227775554));
    assert_eq!(ranges.sum_any_invalid_ids(), Some(4174379265));
}

#[test]
fn digits_of_numbers() {
    assert_eq!(to_digits(0), Vec::<u8>::new());
    assert_eq!(to_digits(7), vec![7]);
    assert_eq!(to_digits(1203), vec![1, 2, 0, 3]);
    assert_eq!(to_digits(1000), vec![1, 0, 0, 0]);
    assert_eq!(
        to_digits(u64::MAX),
        vec![1, 8, 4, 4, 6, 7, 4, 4, 0, 7, 3, 7, 0, 9, 5, 5, 1, 6, 1, 5]
    );
}

#[test]
fn repetition_of_a_length() {
    assert_eq!(detect_repetition_of_length(&[1u8, 2, 1, 2], 2), Some(&[1u8, 2][..]));
    assert_eq!(detect_repetition_of_length(&[1u8, 2, 1, 2], 1), None);
    assert_eq!(detect_repetition_of_length(&[1u8, 2, 1, 2], 3), None);
    assert_eq!(detect_repetition_of_length(&[1u8, 2, 1, 2], 4), Some(&[1u8, 2, 1, 2][..]));
    assert_eq!(detect_repetition_of_length(&[1u8, 2, 1, 2], 0), None);
    assert_eq!(detect_repetition_of_length(&[1u8, 2, 1, 3], 2), None);
    assert_eq!(detect_repetition_of_length(&[1u8, 2, 3, 1, 2, 3], 3), Some(&[1u8, 2, 3][..]));
    assert_eq!(detect_repetition_of_length(&[5u8], 1), Some(&[5u8][..]));
    assert_eq!(detect_repetition_of_length(&[5u8], 2), None);
    assert_eq!(detect_repetition_of_length::<u8>(&[], 0), None);
    assert_eq!(detect_repetition_of_length(&["ab", "ab", "ab"], 1), Some(&["ab"][..]));
}

#[test]
fn all_repetitions() {
    assert_eq!(
        detect_repetition(&[1u8, 1, 1, 1]),
        vec![(&[1u8][..], 1), (&[1u8, 1][..], 2)]
    );
    assert_eq!(detect_repetition(&[1u8, 2, 1, 2]), vec![(&[1u8, 2][..], 2)]);
    assert_eq!(detect_repetition(&[1u8, 2, 3]), Vec::new());
    assert_eq!(detect_repetition(&[1u8]), Vec::new());
    assert_eq!(detect_repetition::<u8>(&[]), Vec::new());
    assert_eq!(
        detect_repetition(&[7u8, 7, 7, 7, 7, 7]),
        vec![(&[7u8][..], 1), (&[7u8, 7][..], 2), (&[7u8, 7, 7][..], 3)]
    );
}

#[test]
fn one_range() {
    let range = ProductIdRange::parse("95-115").unwrap();
    assert_eq!((range.start(), range.end()), (95, 115));
    assert_eq!(range.iter().collect::<Vec<u64>>(), (95..=115).collect::<Vec<u64>>());
    assert_eq!(range.iter().count(), 21);
    let empty = ProductIdRange::new(5, 4);
    assert_eq!(empty.iter().count(), 0);
}

#[test]
fn sums_of_small_ranges() {
    let list = |ranges: &[(u64, u64)]| {
        ProductIdRangeList::new(ranges.iter().map(|r| ProductIdRange::new(r.0, r.1)).collect())
    };
    assert_eq!(list(&[(11, 22)]).sum_twice_invalid_ids(), Some(33));
    assert_eq!(list(&[(95, 115)]).sum_twice_invalid_ids(), Some(99));
    assert_eq!(list(&[(95, 115)]).sum_any_invalid_ids(), Some(99 + 111));
    assert_eq!(list(&[(0, 10)]).sum_twice_invalid_ids(), Some(0));
    assert_eq!(list(&[(0, 10)]).sum_any_invalid_ids(), Some(0));
    assert_eq!(list(&[(11, 11), (11, 11)]).sum_twice_invalid_ids(), Some(22));
    assert_eq!(list(&[(22, 11)]).sum_twice_invalid_ids(), Some(0));
    assert_eq!(list(&[]).sum_any_invalid_ids(), Some(0));
    assert_eq!(list(&[(1212, 1212)]).sum_twice_invalid_ids(), Some(1212));
    assert_eq!(list(&[(121212, 121212)]).sum_twice_invalid_ids(), Some(0));
    assert_eq!(list(&[(121212, 121212)]).sum_any_invalid_ids(), Some(121212));
    assert_eq!(list(&[(1001, 1001)]).sum_any_invalid_ids(), Some(0));
}

#[test]
fn sums_that_do_not_fit() {
    let top = 18446744071844674407u64;
    assert_eq!(to_digits(top), vec![1, 8, 4, 4, 6, 7, 4, 4, 0, 7, 1, 8, 4, 4, 6, 7, 4, 4, 0, 7]);
    let once = ProductIdRangeList::new(vec![ProductIdRange::new(top, top)]);
    assert_eq!(once.sum_twice_invalid_ids(), Some(top));
    let twice =
        ProductIdRangeList::new(vec![ProductIdRange::new(top, top), ProductIdRange::new(top, top)]);
    assert_eq!(twice.sum_twice_invalid_ids(), None);
    assert_eq!(twice.sum_any_invalid_ids(), None);
    let last = ProductIdRangeList::new(vec![ProductIdRange::new(u64::MAX - 1, u64::MAX)]);
    assert_eq!(last.sum_any_invalid_ids(), Some(0));
}

#[test]
fn texts_that_are_no_ranges() {
    assert!(ProductIdRangeList::parse("").is_none());
    assert!(ProductIdRangeList::parse("1-2,").is_none());
    assert!(ProductIdRangeList::parse("1-2\n").is_none());
    assert!(ProductIdRangeList::parse("1-2,3").is_none());
    assert!(ProductIdRangeList::parse("1--2").is_none());
    assert!(ProductIdRangeList::parse("a-2").is_none());
    assert!(ProductIdRangeList::parse("1-18446744073709551616").is_none());
    assert!(ProductIdRangeList::parse("1-18446744073709551615").is_some());
    assert!(ProductIdRangeList::parse("+1-+2,007-9").is_some());
    assert!(ProductIdRange::parse("12").is_none());
    assert!(ProductIdRange::parse("-12").is_none());
}
