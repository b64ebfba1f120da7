use aoc2022::trees::{
    calc_score_from_bottom, calc_score_from_left, calc_score_from_right, calc_score_from_top, calculate_scenic_score,
    find_visible, find_visible_from_bottom, find_visible_from_left, find_visible_from_right, find_visible_from_top,
    parse_input,
};

fn example() -> Vec<Vec<u8>> {
    let raw_data = vec!["30373", "25512", "65332", "33549", "35390"];
    parse_input(raw_data)
}

#[test]
fn example_case_part_one() {
    let raw_data = vec!["30373", "25512", "65332", "33549", "35390"];
    let visible = find_visible(&parse_input(raw_data));
    let num = visible.iter().flat_map(|row| row).filter(|&v| *v).count();
    assert_eq!(num, 21);
}

#[test]
fn example_case_part_two() {
    let raw_data = vec!["30373", "25512", "65332", "33549", "35390"];
    let score = calculate_scenic_score(&parse_input(raw_data));
    let max = score.into_iter().flat_map(|row| row).max().unwrap();
    println!("Max: {max}");
    assert_eq!(max, 8);
}

#[test]
fn parses_digits() {
    assert_eq!(parse_input(vec!["305", "9"]), vec![vec![3, 0, 5], vec![9]]);
}

#[test]
fn visibility_from_each_side() {
    let trees = example();
    let none: Vec<Vec<bool>> = trees.iter().map(|r| vec![false; r.len()]).collect();
    let left = find_visible_from_left(&trees, &none);
    assert_eq!(left[1], vec![true, true, false, false, false]);
    let right = find_visible_from_right(&trees, &none);
    assert_eq!(right[1], vec![false, false, true, false, true]);
    let top = find_visible_from_top(&trees, &none);
    assert_eq!(top[1], vec![false, true, true, false, false]);
    let bottom = find_visible_from_bottom(&trees, &none);
    assert_eq!(bottom[3], vec![false, false, true, false, true]);
    // A tree of height 0 is never seen past its own edge marker.
    let flat = vec![vec![0u8, 0, 0]];
    let none = vec![vec![false; 3]];
    assert_eq!(find_visible_from_left(&flat, &none), none);
}

#[test]
fn visible_grid() {
    let visible = find_visible(&example());
    assert_eq!(visible[1], vec![true, true, true, false, true]);
    assert_eq!(visible[2], vec![true, true, false, true, true]);
    assert_eq!(visible[3], vec![true, false, true, false, true]);
}

#[test]
fn scores_from_each_side() {
    let trees = example();
    let ones: Vec<Vec<u32>> = trees.iter().map(|r| vec![1; r.len()]).collect();
    assert_eq!(calc_score_from_left(&trees, &ones)[3], vec![0, 1, 2, 1, 4]);
    assert_eq!(calc_score_from_right(&trees, &ones)[3], vec![1, 1, 2, 1, 0]);
    let top = calc_score_from_top(&trees, &ones);
    assert_eq!(top[3], vec![1, 1, 2, 3, 3]);
    let bottom = calc_score_from_bottom(&trees, &ones);
    assert_eq!(bottom[1], vec![1, 1, 2, 1, 1]);
    let twos: Vec<Vec<u32>> = trees.iter().map(|r| vec![2; r.len()]).collect();
    assert_eq!(calc_score_from_left(&trees, &twos)[3], vec![0, 2, 4, 2, 8]);
}

#[test]
fn scenic_scores() {
    let score = calculate_scenic_score(&example());
    assert_eq!(score[1][2], 4);
    assert_eq!(score[3][2], 8);
    assert_eq!(score[0], vec![0, 0, 0, 0, 0]);
}
