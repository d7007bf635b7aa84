use advent::battery::{get_highest_possible_number, BatteryBank, BatteryBankCollection};

const SAMPLE: &str = "987654321111111\n811111111111119\n234234234234278\n818181911112111\n";

#[test]
fn sample_banks() {
    let banks = BatteryBankCollection::parse(SAMPLE).unwrap();
    assert_eq!(banks.len(), 4);
    assert_eq!(banks.get_maximum_joltage(2), Some(357));
    assert_eq!(banks.get_maximum_joltage(12), Some(3121910778619));
}

#[test]
fn sample_banks_one_by_one() {
    let bank = |line: &str| BatteryBank::parse(line).unwrap();
    assert_eq!(bank("987654321111111").get_maximum_sequential_joltage(2), Some(98));
    assert_eq!(bank("811111111111119").get_maximum_sequential_joltage(2), Some(89));
    assert_eq!(bank("234234234234278").get_maximum_sequential_joltage(2), Some(78));
    assert_eq!(bank("818181911112111").get_maximum_sequential_joltage(2), Some(92));
    assert_eq!(bank("987654321111111").get_maximum_sequential_joltage(12), Some(987654321111));
    assert_eq!(bank("811111111111119").get_maximum_sequential_joltage(12), Some(811111111119));
    assert_eq!(bank("234234234234278").get_maximum_sequential_joltage(12), Some(434234234278));
    assert_eq!(bank("818181911112111").get_maximum_sequential_joltage(12), Some(888911112111));
}

#[test]
fn highest_numbers() {
    assert_eq!(get_highest_possible_number(&[1, 2, 3], 1), Some(3));
    assert_eq!(get_highest_possible_number(&[1, 2, 3], 0), Some(3));
    assert_eq!(get_highest_possible_number(&[1, 2, 3], 2), Some(23));
    assert_eq!(get_highest_possible_number(&[1, 2, 3], 3), Some(123));
    assert_eq!(get_highest_possible_number(&[1, 2, 3], 4), None);
    assert_eq!(get_highest_possible_number(&[], 1), None);
    assert_eq!(get_highest_possible_number(&[], 0), None);
    assert_eq!(get_highest_possible_number(&[9, 1, 9, 1], 2), Some(99));
    assert_eq!(get_highest_possible_number(&[9, 1, 9, 1], 3), Some(991));
    assert_eq!(get_highest_possible_number(&[0, 0], 2), Some(0));
    assert_eq!(get_highest_possible_number(&[0, 5], 2), Some(5));
    assert_eq!(get_highest_possible_number(&[5, 9], 2), Some(59));
    assert_eq!(get_highest_possible_number(&[3, 7, 5, 7, 1], 3), Some(771));
}

#[test]
fn numbers_above_nine_are_no_digits() {
    assert_eq!(get_highest_possible_number(&[10, 3, 200], 1), Some(3));
    assert_eq!(get_highest_possible_number(&[10, 3, 200], 2), None);
    assert_eq!(get_highest_possible_number(&[4, 10, 3], 2), Some(43));
    assert_eq!(get_highest_possible_number(&[10], 1), None);
}

#[test]
fn nineteen_digits() {
    let nines = [9u8; 25];
    assert_eq!(get_highest_possible_number(&nines, 19), Some(9_999_999_999_999_999_999));
    let bank = BatteryBank::new(nines.to_vec());
    assert_eq!(bank.batteries().len(), 25);
    assert_eq!(bank.get_maximum_sequential_joltage(19), Some(9_999_999_999_999_999_999));
    let banks = BatteryBankCollection::new(vec![bank.clone(), bank]);
    assert_eq!(banks.get_maximum_joltage(19), None);
    assert_eq!(banks.get_maximum_joltage(18), Some(1_999_999_999_999_999_998));
}

#[test]
fn banks_with_too_few_batteries() {
    let banks = BatteryBankCollection::parse("123\n12\n").unwrap();
    assert_eq!(banks.get_maximum_joltage(2), Some(23 + 12));
    assert_eq!(banks.get_maximum_joltage(3), None);
    let none = BatteryBankCollection::parse("").unwrap();
    assert_eq!(none.len(), 0);
    assert_eq!(none.get_maximum_joltage(2), Some(0));
    let empty_line = BatteryBankCollection::parse("12\n\n34\n").unwrap();
    assert_eq!(empty_line.len(), 3);
    assert_eq!(empty_line.get_maximum_joltage(1), None);
}

#[test]
fn texts_that_are_no_banks() {
    assert!(BatteryBank::parse("12a4").is_none());
    assert!(BatteryBank::parse("12 4").is_none());
    assert!(BatteryBank::parse("").is_some());
    assert_eq!(BatteryBank::parse("0129").unwrap().batteries(), &vec![0u8, 1, 2, 9]);
    assert!(BatteryBankCollection::parse("123\n4x6\n").is_none());
}
