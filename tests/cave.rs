use aoc2022::cave::{load_initial_scan, to_tuple};
use aoc2022::sand::{simulate_sand_part_one, simulate_sand_part_two};

#[test]
fn main_example_case_part_one() {
    let rows = ["498,4 -> 498,6 -> 496,6", "503,4 -> 502,4 -> 502,9 -> 494,9"];
    let (init_x, scan) = load_initial_scan(rows.into_iter().collect()).unwrap();
    let rested = simulate_sand_part_one(scan, init_x).unwrap();
    assert_eq!(rested, 24);
}

#[test]
fn main_example_case_part_two() {
    let rows = ["498,4 -> 498,6 -> 496,6", "503,4 -> 502,4 -> 502,9 -> 494,9"];
    let (init_x, scan) = load_initial_scan(rows.into_iter().collect()).unwrap();
    let rested = simulate_sand_part_two(scan, init_x);
    assert_eq!(rested, 93);
}

#[test]
fn scan_layout() {
    let rows = vec!["498,4 -> 498,6 -> 496,6", "503,4 -> 502,4 -> 502,9 -> 494,9"];
    let (init_x, scan) = load_initial_scan(rows).unwrap();
    // The grid starts 100 columns left of x = 494.
    assert_eq!(init_x, 106);
    assert_eq!(scan.len(), 10);
    assert_eq!(scan[0].len(), 503 - 394 + 201);
    assert_eq!(scan[4][498 - 394], 1);
    assert_eq!(scan[6][496 - 394], 1);
    assert_eq!(scan[6][497 - 394], 1);
    assert_eq!(scan[5][497 - 394], 0);
    assert_eq!(scan[9][494 - 394], 1);
    assert_eq!(scan[9][502 - 394], 1);
    assert_eq!(scan[8][503 - 394], 0);
    let rocks: usize = scan.iter().flatten().filter(|&&c| c == 1).count();
    assert_eq!(rocks, 20);
}

#[test]
fn scan_rejects_bad_input() {
    assert!(load_initial_scan(vec!["498,4 -> 498"]).is_none());
    assert!(load_initial_scan(vec!["a,4"]).is_none());
    // Too close to column 0 for the margin of 100.
    assert!(load_initial_scan(vec!["50,4 -> 60,4"]).is_none());
    // No points at all.
    assert!(load_initial_scan(vec![]).is_none());
}

#[test]
fn coordinates_widen_bounds() {
    let (mut max_x, mut min_x, mut max_y) = (0usize, usize::MAX, 0usize);
    assert_eq!(to_tuple("498,4", &mut max_x, &mut min_x, &mut max_y), Some((498, 4)));
    assert_eq!(to_tuple("503,2", &mut max_x, &mut min_x, &mut max_y), Some((503, 2)));
    assert_eq!((max_x, min_x, max_y), (503, 498, 4));
    assert_eq!(to_tuple("1,2,junk", &mut max_x, &mut min_x, &mut max_y), Some((1, 2)));
    assert_eq!(min_x, 1);
    assert_eq!(to_tuple("7", &mut max_x, &mut min_x, &mut max_y), None);
    assert_eq!((max_x, min_x, max_y), (503, 1, 4));
}

#[test]
fn sand_that_never_stops_is_reported() {
    // The entry sits on sand with sand below on all sides: every grain would rest there.
    let scan = vec![vec![0, 2, 0], vec![2, 2, 2], vec![0, 0, 0]];
    assert_eq!(simulate_sand_part_one(scan, 1), None);
}

#[test]
fn sand_with_floor_fills_a_small_cave() {
    // A 1x3 cave: with the floor the entry column fills after a few grains.
    let scan = vec![vec![0u8, 0, 0]];
    let rested = simulate_sand_part_two(scan, 1);
    assert_eq!(rested, 4);
}
