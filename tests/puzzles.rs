use aoc2022::cleanup::{part_one, part_two, split_pairs};
use aoc2022::rucksack::ctoi;
use aoc2022::strategy::{chars_to_tuple_one, chars_to_tuple_two, evaulate_round_one, evaulate_round_two};
use aoc2022::text::{find, parse_u32, parse_usize, split, to_chars};

#[test]
fn strategy_scores_by_shape() {
    assert_eq!(chars_to_tuple_one("A Y"), (1, 2));
    assert_eq!(evaulate_round_one("A Y"), 8);
    assert_eq!(evaulate_round_one("B X"), 1);
    assert_eq!(evaulate_round_one("C Z"), 6);
    assert_eq!(evaulate_round_one("C X"), 7);
    assert_eq!(evaulate_round_one(""), 0);
    let total: u32 = ["A Y", "B X", "C Z"].iter().map(|r| evaulate_round_one(r)).sum();
    assert_eq!(total, 15);
}

#[test]
fn strategy_scores_by_outcome() {
    assert_eq!(chars_to_tuple_two("A Y"), (1, 3));
    assert_eq!(chars_to_tuple_two("C Z"), (3, 6));
    assert_eq!(chars_to_tuple_two("D Z"), (0, 0));
    assert_eq!(evaulate_round_two("A Y"), 4);
    assert_eq!(evaulate_round_two("B X"), 1);
    assert_eq!(evaulate_round_two("C Z"), 7);
    assert_eq!(evaulate_round_two("A X"), 3);
    let total: u32 = ["A Y", "B X", "C Z"].iter().map(|r| evaulate_round_two(r)).sum();
    assert_eq!(total, 12);
}

#[test]
fn rucksack_priorities() {
    assert_eq!(ctoi('a'), 1);
    assert_eq!(ctoi('z'), 26);
    assert_eq!(ctoi('A'), 27);
    assert_eq!(ctoi('Z'), 52);
    assert_eq!(aoc2022::rucksack::evaulate_round_one("vJrwpWtwJgWrhcsFMMfFFhFp"), 16);
    assert_eq!(aoc2022::rucksack::evaulate_round_one("jqHRNqRjqzjGDLGLrsFMfFZSrLrFZsSL"), 38);
    assert_eq!(aoc2022::rucksack::evaulate_round_one("PmmdzqPrVvPwwTWBwg"), 42);
    assert_eq!(aoc2022::rucksack::evaulate_round_one("abcd"), 0);
    assert_eq!(aoc2022::rucksack::evaulate_round_one(""), 0);
}

#[test]
fn cleanup_pairs() {
    assert_eq!(split_pairs("2-4,6-8"), Some(((2, 4), (6, 8))));
    assert_eq!(part_one("2-4,6-8"), Some(0));
    assert_eq!(part_one("2-8,3-7"), Some(1));
    assert_eq!(part_one("6-6,4-6"), Some(1));
    assert_eq!(part_two("2-4,6-8"), Some(0));
    assert_eq!(part_two("5-7,7-9"), Some(1));
    assert_eq!(part_two("6-6,4-6"), Some(1));
    assert_eq!(split_pairs("2-4"), None);
    assert_eq!(split_pairs("2-4,6-x"), None);
    assert_eq!(part_one("5000000000-1,1-1"), None);
}

#[test]
fn text_helpers() {
    assert_eq!(parse_usize(&to_chars("+12")), Some(12));
    assert_eq!(parse_usize(&to_chars("0042")), Some(42));
    assert_eq!(parse_usize(&to_chars("")), None);
    assert_eq!(parse_usize(&to_chars("+")), None);
    assert_eq!(parse_usize(&to_chars("1 2")), None);
    assert_eq!(parse_usize(&to_chars("18446744073709551615")), Some(usize::MAX));
    assert_eq!(parse_usize(&to_chars("18446744073709551616")), None);
    assert_eq!(parse_u32(&to_chars("4294967296")), None);
    assert_eq!(parse_u32(&to_chars("4294967295")), Some(u32::MAX));
    let pieces = split(&to_chars("a, b,, c"), &to_chars(", "));
    let pieces: Vec<String> = pieces.iter().map(|p| p.iter().collect()).collect();
    assert_eq!(pieces, vec!["a", "b,", "c"]);
    assert_eq!(find(&to_chars("old * old"), &to_chars("old"), 1), Some(6));
}

#[test]
fn group_badges() {
    let rows = vec![
        "vJrwpWtwJgWrhcsFMMfFFhFp",
        "jqHRNqRjqzjGDLGLrsFMfFZSrLrFZsSL",
        "PmmdzqPrVvPwwTWBwg",
        "wMqvLMZHhHMvwLHjbvcjnnSBnvTQFn",
        "ttgJtRGJQctTZtZT",
        "CrZsJsPPZsGzwwsLwLmpwMDw",
    ];
    let badges = aoc2022::rucksack::find_badges(rows);
    assert_eq!(badges, vec!['r', 'Z']);
    let total: usize = badges.iter().map(|&c| ctoi(c)).sum();
    assert_eq!(total, 70);
    // A single rucksack with one item type is a badge by itself.
    assert_eq!(aoc2022::rucksack::find_badges(vec!["aaa", "bc"]), vec!['a']);
}
