use advent::manifold::{ParseError, TachyonManifold};
use advent::rays::total_rays;
use std::collections::{HashMap, HashSet};

const SAMPLE: &str = "\
.......S.......
...............
.......^.......
...............
......^.^......
...............
.....^.^.^.....
...............
....^.^...^....
...............
...^.^...^.^...
...............
..^...^.....^..
...............
.^.^.^.^.^...^.
...............
";

fn cells(rows: &[&str]) -> Vec<Vec<bool>> {
    rows.iter().map(|row| row.chars().map(|c| c == '^').collect()).collect()
}

fn set_of(columns: &[usize]) -> HashSet<usize> {
    columns.iter().copied().collect()
}

fn map_of(entries: &[(usize, usize)]) -> HashMap<usize, usize> {
    entries.iter().copied().collect()
}

/// A grid in which every ray meets a splitter in every layer.
fn pyramid(layers: usize) -> TachyonManifold {
    let start = layers + 1;
    let width = 2 * layers + 3;
    let mut rows = Vec::new();
    for y in 0..layers {
        let mut row = vec![false; width];
        let mut x = start - y;
        while x <= start + y {
            row[x] = true;
            x += 2;
        }
        rows.push(row);
    }
    TachyonManifold::new(rows, start).unwrap()
}

#[test]
fn straight_fall_without_splitters() {
    let manifold = TachyonManifold::new(cells(&["..."]), 1).unwrap();
    assert_eq!(manifold.width(), 3);
    assert_eq!(manifold.depth(), 1);
    assert_eq!(manifold.start_column(), 1);
    assert_eq!(manifold.count_splits(), 0);
    assert_eq!(manifold.count_paths(), Some(1));
    assert_eq!(manifold.trace_rays(), (0, set_of(&[1])));
    assert_eq!(manifold.trace_rays_overlapping(), Some(map_of(&[(1, 1)])));
}

#[test]
fn three_layers_of_splitters() {
    let manifold =
        TachyonManifold::new(cells(&["...^...", "..^.^..", ".^...^."]), 3).unwrap();
    assert_eq!(manifold.width(), 7);
    assert_eq!(manifold.depth(), 3);

    let (splits, rays) = manifold.perform_splits(set_of(&[3]), 0);
    assert_eq!((splits, rays.clone()), (1, set_of(&[2, 4])));
    let (splits, rays) = manifold.perform_splits(rays, 1);
    assert_eq!((splits, rays.clone()), (2, set_of(&[1, 3, 5])));
    let (splits, rays) = manifold.perform_splits(rays, 2);
    assert_eq!((splits, rays), (2, set_of(&[0, 2, 3, 4, 6])));

    assert_eq!(manifold.count_splits(), 5);
    assert_eq!(manifold.trace_rays(), (5, set_of(&[0, 2, 3, 4, 6])));

    let rays = manifold.perform_splits_overlapping(map_of(&[(3, 1)]), 0).unwrap();
    assert_eq!(rays, map_of(&[(2, 1), (4, 1)]));
    let rays = manifold.perform_splits_overlapping(rays, 1).unwrap();
    assert_eq!(rays, map_of(&[(1, 1), (3, 2), (5, 1)]));
    let rays = manifold.perform_splits_overlapping(rays, 2).unwrap();
    assert_eq!(rays, map_of(&[(0, 1), (2, 1), (3, 2), (4, 1), (6, 1)]));

    assert_eq!(
        manifold.trace_rays_overlapping(),
        Some(map_of(&[(0, 1), (2, 1), (3, 2), (4, 1), (6, 1)]))
    );
    assert_eq!(manifold.count_paths(), Some(6));
}

#[test]
fn sample_text() {
    let manifold = TachyonManifold::parse(SAMPLE).unwrap();
    assert_eq!(manifold.width(), 15);
    assert_eq!(manifold.depth(), 16);
    assert_eq!(manifold.start_column(), 7);
    assert_eq!(manifold.count_splits(), 21);
    assert_eq!(manifold.count_paths(), Some(40));
    let rays = manifold.trace_rays_overlapping().unwrap();
    assert_eq!(total_rays(&rays), Some(40));
}

#[test]
fn parsed_cells() {
    let manifold = TachyonManifold::parse("..S..\n.^.^.\n..^\n").unwrap();
    assert_eq!(manifold.width(), 5);
    assert_eq!(manifold.depth(), 3);
    assert_eq!(manifold.start_column(), 2);
    for y in 0..3 {
        for x in 0..5 {
            let expected = matches!((x, y), (1, 1) | (3, 1) | (2, 2));
            assert_eq!(manifold.is_splitter(x, y), expected);
            assert_eq!(manifold.splits_at(x, y), expected);
        }
    }
    assert!(!manifold.splits_at(1, 3));
    assert!(!manifold.splits_at(5, 1));
}

#[test]
fn short_rows_are_filled_up() {
    let manifold = TachyonManifold::parse(".S...\n.^\n").unwrap();
    assert_eq!(manifold.width(), 5);
    assert!(manifold.is_splitter(1, 1));
    assert!(!manifold.is_splitter(4, 1));
    assert_eq!(manifold.trace_rays(), (1, set_of(&[0, 2])));
}

#[test]
fn carriage_returns_end_lines() {
    let manifold = TachyonManifold::parse("..S..\r\n..^..\r\n").unwrap();
    assert_eq!(manifold.width(), 5);
    assert_eq!(manifold.depth(), 2);
    assert_eq!(manifold.count_splits(), 1);
}

#[test]
fn text_without_start_is_rejected() {
    assert_eq!(TachyonManifold::parse("...\n.^.\n").err(), Some(ParseError::MissingStart));
}

#[test]
fn empty_text_is_rejected() {
    assert_eq!(TachyonManifold::parse("").err(), Some(ParseError::EmptyGrid));
    assert_eq!(TachyonManifold::parse("\n\n").err(), Some(ParseError::EmptyGrid));
    assert_eq!(TachyonManifold::new(Vec::new(), 0).err(), Some(ParseError::EmptyGrid));
    assert_eq!(TachyonManifold::new(vec![Vec::new()], 0).err(), Some(ParseError::EmptyGrid));
}

#[test]
fn two_starts_are_rejected() {
    assert_eq!(TachyonManifold::parse(".S.\n.S.\n").err(), Some(ParseError::MultipleStarts));
    assert_eq!(TachyonManifold::parse("S.S\n").err(), Some(ParseError::MultipleStarts));
}

#[test]
fn start_outside_the_grid_is_rejected() {
    assert_eq!(TachyonManifold::new(cells(&["..."]), 3).err(), Some(ParseError::MissingStart));
}

#[test]
fn splitter_on_the_edge_is_rejected() {
    assert_eq!(TachyonManifold::parse(".S.\n^..\n").err(), Some(ParseError::EdgeSplitter));
    assert_eq!(TachyonManifold::parse(".S.\n..^\n").err(), Some(ParseError::EdgeSplitter));
    assert_eq!(TachyonManifold::parse("S\n^\n").err(), Some(ParseError::EdgeSplitter));
    assert!(TachyonManifold::parse(".S..\n..^\n").is_ok());
}

#[test]
fn no_splitter_below_the_start_means_one_path() {
    let manifold = TachyonManifold::parse("...S...\n.^...^.\n..^.^..\n").unwrap();
    assert_eq!(manifold.trace_rays(), (0, set_of(&[3])));
    assert_eq!(manifold.count_paths(), Some(1));
}

#[test]
fn a_layer_adds_the_rays_that_hit_a_splitter() {
    let manifold = TachyonManifold::parse(SAMPLE).unwrap();
    let mut rays = map_of(&[(manifold.start_column(), 1)]);
    for layer in 0..manifold.depth() {
        let before = total_rays(&rays).unwrap();
        let hit: usize = rays
            .iter()
            .filter(|(x, _)| manifold.splits_at(**x, layer))
            .map(|(_, n)| *n)
            .sum();
        rays = manifold.perform_splits_overlapping(rays, layer).unwrap();
        assert_eq!(total_rays(&rays), Some(before + hit));
    }
    assert_eq!(total_rays(&rays), Some(40));
}

#[test]
fn rays_stay_inside_the_grid() {
    let manifold = TachyonManifold::parse(SAMPLE).unwrap();
    let mut rays = set_of(&[manifold.start_column()]);
    for layer in 0..manifold.depth() {
        rays = manifold.perform_splits(rays, layer).1;
        assert!(rays.iter().all(|x| *x < manifold.width()));
    }
}

#[test]
fn both_counts_follow_the_same_rays() {
    let manifold = TachyonManifold::parse(SAMPLE).unwrap();
    let columns = manifold.trace_rays().1;
    let counts = manifold.trace_rays_overlapping().unwrap();
    let reached: HashSet<usize> = counts.keys().copied().collect();
    assert_eq!(columns, reached);
    assert!(counts.values().all(|n| *n > 0));
}

#[test]
fn runs_are_repeatable() {
    let manifold = TachyonManifold::parse(SAMPLE).unwrap();
    let again = TachyonManifold::parse(SAMPLE).unwrap();
    assert_eq!(manifold.trace_rays(), manifold.trace_rays());
    assert_eq!(manifold.trace_rays(), again.trace_rays());
    assert_eq!(manifold.trace_rays_overlapping(), again.trace_rays_overlapping());
    assert_eq!(manifold.count_paths(), again.count_paths());
}

#[test]
fn rays_outside_the_grid_fall_straight() {
    let manifold = TachyonManifold::parse(".S.\n.^.\n").unwrap();
    assert_eq!(manifold.perform_splits(set_of(&[1, 9]), 1), (1, set_of(&[0, 2, 9])));
    assert_eq!(manifold.perform_splits(set_of(&[1]), 7), (0, set_of(&[1])));
    assert_eq!(manifold.perform_splits(HashSet::new(), 1), (0, HashSet::new()));
    assert_eq!(
        manifold.perform_splits_overlapping(map_of(&[(1, 3), (0, 2)]), 1),
        Some(map_of(&[(0, 5), (2, 3)]))
    );
}

#[test]
fn counts_that_do_not_fit_are_reported() {
    let manifold = TachyonManifold::parse(".S.\n.^.\n").unwrap();
    assert_eq!(
        manifold.perform_splits_overlapping(map_of(&[(0, usize::MAX), (1, 1)]), 1),
        None
    );
    assert_eq!(
        manifold.perform_splits_overlapping(map_of(&[(0, usize::MAX - 1), (1, 1)]), 1),
        Some(map_of(&[(0, usize::MAX), (2, 1)]))
    );
    assert_eq!(total_rays(&map_of(&[(0, usize::MAX), (2, 1)])), None);
    assert_eq!(total_rays(&map_of(&[(0, usize::MAX - 1), (2, 1)])), Some(usize::MAX));
    assert_eq!(total_rays(&HashMap::new()), Some(0));
}

#[test]
fn doubling_paths() {
    let ten = pyramid(10);
    assert_eq!(ten.count_splits(), 55);
    assert_eq!(ten.count_paths(), Some(1024));

    let bits = usize::BITS as usize;
    let just_fits = pyramid(bits - 1);
    assert_eq!(just_fits.count_paths(), Some(1 << (bits - 1)));

    let sum_too_large = pyramid(bits);
    assert!(sum_too_large.trace_rays_overlapping().is_some());
    assert_eq!(sum_too_large.count_paths(), None);

    let count_too_large = pyramid(bits + 8);
    assert_eq!(count_too_large.trace_rays_overlapping(), None);
    assert_eq!(count_too_large.count_paths(), None);
    assert_eq!(count_too_large.count_splits(), (bits + 8) * (bits + 9) / 2);
}
