use advent::inventory::Inventory;

const SAMPLE: &str = "3-5\n10-14\n16-20\n12-18\n\n1\n5\n8\n11\n17\n32\n";

#[test]
fn sample_inventory() {
    let inventory = Inventory::parse(SAMPLE).unwrap();
    assert_eq!(inventory.fresh_ranges(), &vec![(3, 5), (10, 14), (16, 20), (12, 18)]);
    assert_eq!(inventory.available_ingredients(), &vec![1, 5, 8, 11, 17, 32]);
    assert_eq!(inventory.get_available_fresh_ingredients(), vec![5, 11, 17]);
    assert_eq!(inventory.get_fresh_ingredient_count(), 14);
}

#[test]
fn ids_in_ranges() {
    assert!(Inventory::is_in_range(3, &(3, 5)));
    assert!(Inventory::is_in_range(5, &(3, 5)));
    assert!(!Inventory::is_in_range(2, &(3, 5)));
    assert!(!Inventory::is_in_range(6, &(3, 5)));
    assert!(!Inventory::is_in_range(4, &(5, 3)));
    assert!(Inventory::is_in_range(usize::MAX, &(0, usize::MAX)));
    let inventory = Inventory::new(vec![(3, 5), (10, 14)], vec![]).unwrap();
    assert!(inventory.is_fresh(3));
    assert!(inventory.is_fresh(14));
    assert!(!inventory.is_fresh(9));
    assert!(!inventory.is_fresh(0));
    let none = Inventory::new(vec![], vec![7]).unwrap();
    assert!(!none.is_fresh(7));
    assert_eq!(none.get_available_fresh_ingredients(), Vec::new());
}

#[test]
fn ranges_in_any_order() {
    let count = |ranges: &[(usize, usize)]| {
        Inventory::new(ranges.to_vec(), vec![]).unwrap().get_fresh_ingredient_count()
    };
    assert_eq!(count(&[]), 0);
    assert_eq!(count(&[(7, 7)]), 1);
    assert_eq!(count(&[(16, 20), (3, 5), (12, 18), (10, 14)]), 14);
    assert_eq!(count(&[(20, 30), (1, 10)]), 21);
    assert_eq!(count(&[(5, 9), (1, 4)]), 9);
    assert_eq!(count(&[(1, 3), (4, 6)]), 6);
    assert_eq!(count(&[(1, 3), (5, 6)]), 5);
    assert_eq!(count(&[(1, 100), (20, 30), (40, 50)]), 100);
    assert_eq!(count(&[(1, 5), (1, 5), (1, 5)]), 5);
    assert_eq!(count(&[(0, 0), (2, 2), (1, 1)]), 3);
    assert_eq!(count(&[(0, usize::MAX - 1)]), usize::MAX);
    assert_eq!(count(&[(10, usize::MAX - 1), (0, 9)]), usize::MAX);
}

#[test]
fn ranges_that_end_before_they_start_are_empty() {
    let count = |ranges: &[(usize, usize)]| {
        Inventory::new(ranges.to_vec(), vec![]).unwrap().get_fresh_ingredient_count()
    };
    assert_eq!(count(&[(5, 3)]), 0);
    assert_eq!(count(&[(1, 10), (5, 3)]), 10);
    assert_eq!(count(&[(5, 2), (6, 8)]), 3);
    assert_eq!(count(&[(1, 3), (4, 2), (5, 6)]), 5);
}

#[test]
fn fresh_ingredients_keep_their_order() {
    let inventory = Inventory::new(vec![(1, 10)], vec![9, 11, 3, 3, 0, 10]).unwrap();
    assert_eq!(inventory.get_available_fresh_ingredients(), vec![9, 3, 3, 10]);
}

#[test]
fn texts_that_are_no_inventory() {
    assert!(Inventory::parse("").is_none());
    assert!(Inventory::parse("1-2\n3\n").is_none());
    assert!(Inventory::parse("1-2\r\n\r\n3\r\n").is_none());
    assert!(Inventory::parse("1-2\n\n3\n").is_some());
    assert!(Inventory::parse("1-2\n\n").is_some());
    assert!(Inventory::parse("\n\n").is_some());
    assert!(Inventory::parse("1-2\n\nx\n").is_none());
    assert!(Inventory::parse("1\n\n3\n").is_none());
    assert!(Inventory::parse("1-2-3\n\n3\n").is_none());
    assert!(Inventory::parse("1- 2\n\n3\n").is_none());
    assert!(Inventory::parse("1-2\n\n3\n\n4\n").is_none());
    let largest = format!("0-{}\n\n1\n", usize::MAX);
    assert!(Inventory::parse(&largest).is_none());
    let second = format!("0-{}\n\n{}\n", usize::MAX - 1, usize::MAX);
    let inventory = Inventory::parse(&second).unwrap();
    assert_eq!(inventory.get_fresh_ingredient_count(), usize::MAX);
    assert_eq!(inventory.get_available_fresh_ingredients(), Vec::new());
    assert!(Inventory::new(vec![(0, usize::MAX)], vec![]).is_none());
}
