use advent::paper_rolls::PaperDepartmentMap;

const SAMPLE: &str = "\
..@@.@@@@.
@@@.@.@.@@
@@@@@.@.@@
@.@@@@..@.
@@.@@@@.@@
.@@@@@@@.@
.@.@.@.@@@
@.@@@.@@@@
.@@@@@@@@.
@.@.@@@.@.
";

#[test]
fn sample_floor() {
    let mut map = PaperDepartmentMap::parse(SAMPLE).unwrap();
    assert_eq!((map.width(), map.height()), (10, 10));
    assert_eq!(map.count_paper_rolls(), 71);
    assert_eq!(map.count_accessible_paper_rolls(), 13);
    assert_eq!(map.try_remove_all(), 43);
    assert_eq!(map.count_paper_rolls(), 28);
    assert_eq!(map.count_accessible_paper_rolls(), 0);
    assert_eq!(map.try_remove_all(), 0);
}

#[test]
fn rolls_and_empty_places() {
    let map = PaperDepartmentMap::parse("@.@\n.@\n").unwrap();
    assert_eq!((map.width(), map.height()), (3, 2));
    assert!(map.has_roll(0, 0));
    assert!(!map.has_roll(1, 0));
    assert!(map.has_roll(2, 0));
    assert!(!map.has_roll(0, 1));
    assert!(map.has_roll(1, 1));
    assert!(!map.has_roll(2, 1));
    assert!(!map.has_roll(-1, 0));
    assert!(!map.has_roll(0, -1));
    assert!(!map.has_roll(3, 0));
    assert!(!map.has_roll(0, 2));
    assert!(!map.has_roll(isize::MAX, isize::MIN));
    assert_eq!(map.count_paper_rolls(), 3);
}

#[test]
fn neighbours_in_order() {
    let map = PaperDepartmentMap::parse("@@@\n@@@\n@@@\n").unwrap();
    assert_eq!(
        map.get_neighbours(&(1, 1)),
        vec![(0, 0), (0, 1), (0, 2), (1, 0), (1, 2), (2, 0), (2, 1), (2, 2)]
    );
    assert_eq!(map.get_neighbours(&(0, 0)), vec![(0, 1), (1, 0), (1, 1)]);
    assert_eq!(map.get_neighbours(&(2, 1)), vec![(1, 0), (1, 1), (1, 2), (2, 0), (2, 2)]);
    assert_eq!(map.get_neighbours(&(3, 3)), vec![(2, 2)]);
    assert_eq!(map.get_neighbours(&(-1, -1)), vec![(0, 0)]);
    assert_eq!(map.get_neighbours(&(5, 5)), Vec::new());
    assert_eq!(map.get_neighbours(&(isize::MAX, isize::MAX)), Vec::new());
    assert_eq!(map.get_neighbours(&(isize::MIN, 0)), Vec::new());

    let sparse = PaperDepartmentMap::parse("@.@\n...\n.@.\n").unwrap();
    assert_eq!(sparse.get_neighbours(&(1, 1)), vec![(0, 0), (1, 2), (2, 0)]);
}

#[test]
fn positions_column_by_column() {
    let map = PaperDepartmentMap::parse("@.@\n.@.\n").unwrap();
    assert_eq!(map.get_all_positions(), vec![(0, 0), (0, 1), (1, 0), (1, 1), (2, 0), (2, 1)]);
    assert_eq!(map.get_accessible_paper_rolls(), vec![(0, 0), (1, 1), (2, 0)]);
    let empty = PaperDepartmentMap::parse("").unwrap();
    assert_eq!((empty.width(), empty.height()), (0, 0));
    assert_eq!(empty.get_all_positions(), Vec::new());
    assert_eq!(empty.count_accessible_paper_rolls(), 0);
}

#[test]
fn rolls_with_four_neighbours_stay() {
    let mut map = PaperDepartmentMap::parse("@@@\n@@@\n@@@\n").unwrap();
    assert_eq!(map.get_accessible_paper_rolls(), vec![(0, 0), (0, 2), (2, 0), (2, 2)]);
    assert_eq!(map.count_accessible_paper_rolls(), 4);
    assert_eq!(map.try_remove_all(), 9);
    assert_eq!(map.count_paper_rolls(), 0);

    let mut block = PaperDepartmentMap::parse("@@@@\n@@@@\n@@@@\n@@@@\n").unwrap();
    assert_eq!(block.count_accessible_paper_rolls(), 4);
    assert_eq!(block.try_remove_all(), 4);
    assert_eq!(block.count_paper_rolls(), 12);
    assert_eq!(block.get_neighbours(&(1, 0)), vec![(0, 1), (1, 1), (2, 0), (2, 1)]);
    assert!(!block.has_roll(0, 0));
    assert!(block.has_roll(1, 0));

    let mut strip = PaperDepartmentMap::parse("@@@@@@\n@@@@@@\n").unwrap();
    assert_eq!(strip.get_accessible_paper_rolls(), vec![(0, 0), (0, 1), (5, 0), (5, 1)]);
    assert_eq!(strip.try_remove_all(), 12);
}

#[test]
fn rounds_take_rolls_at_once() {
    let mut map = PaperDepartmentMap::parse(".@.\n@@@\n.@.\n").unwrap();
    assert_eq!(map.get_accessible_paper_rolls(), vec![(0, 1), (1, 0), (1, 2), (2, 1)]);
    assert_eq!(map.try_remove_all(), 5);
    assert!(!map.has_roll(1, 1));
}
