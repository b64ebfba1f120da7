use aoc2022::supply::{solve_part_one, solve_part_two};

fn stacks() -> Vec<Vec<char>> {
    vec![vec!['Z', 'N'], vec!['M', 'C', 'D'], vec!['P']]
}

fn moves() -> Vec<(usize, usize, usize)> {
    vec![(1, 1, 0), (3, 0, 2), (2, 1, 0), (1, 0, 1)]
}

#[test]
fn crane_moves_one_at_a_time() {
    assert_eq!(solve_part_one(stacks(), moves()), Some("CMZ".to_string()));
}

#[test]
fn crane_moves_blocks() {
    assert_eq!(solve_part_two(stacks(), moves()), Some("MCD".to_string()));
}

#[test]
fn impossible_moves_are_rejected() {
    assert_eq!(solve_part_one(stacks(), vec![(3, 2, 0)]), None);
    assert_eq!(solve_part_two(stacks(), vec![(3, 2, 0)]), None);
    assert_eq!(solve_part_one(stacks(), vec![(1, 5, 0)]), None);
    // Stack 2 ends empty.
    assert_eq!(solve_part_one(stacks(), vec![(1, 2, 0)]), None);
    assert_eq!(solve_part_two(vec![vec!['A']], vec![(1, 0, 0)]), Some("A".to_string()));
}

const DRAWING: &str = "    [D]    \n[N] [C]    \n[Z] [M] [P]\n 1   2   3 \n\nmove 1 from 2 to 1\nmove 3 from 1 to 3\nmove 2 from 2 to 1\nmove 1 from 1 to 2";

#[test]
fn reads_drawing_and_moves() {
    let (st, ins) = aoc2022::supply::prepare_data(DRAWING.split('\n').collect()).unwrap();
    assert_eq!(st.len(), 9);
    assert_eq!(st[0], vec!['Z', 'N']);
    assert_eq!(st[1], vec!['M', 'C', 'D']);
    assert_eq!(st[2], vec!['P']);
    assert!(st[3..].iter().all(|s| s.is_empty()));
    assert_eq!(ins, moves());
    // Six of the nine stacks stay empty, so there is no top crate to read.
    assert_eq!(solve_part_one(st.clone(), ins.clone()), None);
    let three: Vec<Vec<char>> = st.into_iter().take(3).collect();
    assert_eq!(solve_part_one(three, ins), Some("CMZ".to_string()));
}

#[test]
fn malformed_moves_are_rejected() {
    let text = "[A]\n 1 \n\nmove 1 from 0 to 1";
    assert!(aoc2022::supply::prepare_data(text.split('\n').collect()).is_none());
    let text = "[A]\n 1 \n\nmove one from 1 to 1";
    assert!(aoc2022::supply::prepare_data(text.split('\n').collect()).is_none());
    let text = "[A] [B] [C] [D] [E] [F] [G] [H] [I] [J]\n 1 \n";
    assert!(aoc2022::supply::prepare_data(text.split('\n').collect()).is_none());
}
