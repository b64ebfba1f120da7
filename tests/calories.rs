use aoc2022::calories::{calorie_ranking, elf_totals, top_calories};

const LIST: &str = "1000\n2000\n3000\n\n4000\n\n5000\n6000\n\n7000\n8000\n9000\n\n10000\n";

#[test]
fn totals_per_elf() {
    let totals = elf_totals(LIST.split('\n').collect()).unwrap();
    assert_eq!(totals, vec![6000, 4000, 11000, 24000, 10000]);
}

#[test]
fn ranking_and_top_three() {
    let ranking = calorie_ranking(elf_totals(LIST.split('\n').collect()).unwrap());
    assert_eq!(ranking, vec![24000, 11000, 10000, 6000, 4000]);
    assert_eq!(top_calories(&ranking, 1), Some(24000));
    assert_eq!(top_calories(&ranking, 3), Some(45000));
    assert_eq!(top_calories(&ranking, 10), Some(55000));
    assert_eq!(top_calories(&vec![], 3), Some(0));
    assert_eq!(top_calories(&vec![u32::MAX, 1], 2), None);
}

#[test]
fn unclosed_elf_and_bad_lines() {
    assert_eq!(elf_totals("5\n6".split('\n').collect()), Some(vec![]));
    assert_eq!(elf_totals("5\nx\n".split('\n').collect()), None);
    assert_eq!(elf_totals("4294967295\n1\n\n".split('\n').collect()), None);
}
