use aoc2022::monkey::{
    divisor_product, is_well_formed, monkey_business, round, round_part_one, round_part_two, run, take_turn,
    Monkey, Operation, Relief,
};
use aoc2022::notes::read_monkeys;

const EXAMPLE: &str = r#"Monkey 0:
  Starting items: 79, 98
  Operation: new = old * 19
  Test: divisible by 23
    If true: throw to monkey 2
    If false: throw to monkey 3

Monkey 1:
  Starting items: 54, 65, 75, 74
  Operation: new = old + 6
  Test: divisible by 19
    If true: throw to monkey 2
    If false: throw to monkey 0

Monkey 2:
  Starting items: 79, 60, 97
  Operation: new = old * old
  Test: divisible by 13
    If true: throw to monkey 1
    If false: throw to monkey 3

Monkey 3:
  Starting items: 74
  Operation: new = old + 3
  Test: divisible by 17
    If true: throw to monkey 0
    If false: throw to monkey 1
"#;

fn example() -> Vec<Monkey> {
    read_monkeys(EXAMPLE.split('\n').collect()).unwrap()
}

fn items(m: &Monkey) -> Vec<usize> {
    m.items.iter().copied().collect()
}

#[test]
fn first_test() {
    let input = EXAMPLE;
    let monkeys = read_monkeys(input.split('\n').collect()).unwrap();
    for monkey in &monkeys {
        println!("{monkey:?}");
    }
    let mut inspections: Vec<usize> = monkeys.iter().map(|_| 0).collect();
    assert_eq!(monkeys.len(), 4);

    let _monkeys = round_part_one(monkeys, &mut inspections, 3);
    assert_eq!(inspections[0], 2);
    assert_eq!(inspections[1], 4);
    assert_eq!(inspections[2], 3);
    assert_eq!(inspections[3], 5);
}

#[test]
fn part_two() {
    let input = EXAMPLE;
    let mut monkeys = read_monkeys(input.split('\n').collect()).unwrap();
    let test_product: usize = monkeys.iter().map(|m| m.test).product();
    let mut observer: Vec<usize> = monkeys.iter().map(|_| 0).collect();

    for _ in 1..=20 {
        monkeys = round_part_two(monkeys, &mut observer, test_product);
    }
    assert_eq!(observer[0], 99);
    assert_eq!(observer[1], 97);
    assert_eq!(observer[2], 8);
    assert_eq!(observer[3], 103);
}

#[test]
fn reads_the_example_notes() {
    let monkeys = example();
    assert_eq!(monkeys[0].operation, Operation::Mul(19));
    assert_eq!(monkeys[1].operation, Operation::Add(6));
    assert_eq!(monkeys[2].operation, Operation::Square);
    assert_eq!(monkeys[3].operation, Operation::Add(3));
    assert_eq!(monkeys[0].test, 23);
    assert_eq!(monkeys[2].if_true, 1);
    assert_eq!(monkeys[2].if_false, 3);
    assert_eq!(items(&monkeys[1]), vec![54, 65, 75, 74]);
    assert!(is_well_formed(&monkeys));
}

#[test]
fn malformed_notes_are_rejected() {
    let bad_number = "Monkey 0:\n  Starting items: 79, x8\n  Operation: new = old * 19\n\n";
    assert!(read_monkeys(bad_number.split('\n').collect()).is_none());
    let no_operation = "Monkey 0:\n  Starting items: 79\n  Test: divisible by 2\n\n";
    assert!(read_monkeys(no_operation.split('\n').collect()).is_none());
    let bad_divisor = "Monkey 0:\n  Operation: new = old + 1\n  Test: divisible by 1x\n\n";
    assert!(read_monkeys(bad_divisor.split('\n').collect()).is_none());
}

#[test]
fn unfinished_block_is_dropped() {
    let text = "Monkey 0:\n  Starting items: 1\n  Operation: new = old + 1\n\nMonkey 1:\n  Starting items: 2";
    let monkeys = read_monkeys(text.split('\n').collect()).unwrap();
    assert_eq!(monkeys.len(), 1);
}

#[test]
fn twenty_rounds_with_division() {
    let counts = run(example(), 20, Relief::Divide(3)).unwrap();
    assert_eq!(counts, vec![101, 95, 7, 105]);
    assert_eq!(monkey_business(&counts), Some(10605));
}

#[test]
fn one_round_with_division() {
    let counts = run(example(), 1, Relief::Divide(3)).unwrap();
    assert_eq!(counts, vec![2, 4, 3, 5]);
}

#[test]
fn rounds_with_modulus() {
    let monkeys = example();
    let m = divisor_product(&monkeys).unwrap();
    assert_eq!(m, 96577);
    let counts = run(monkeys, 20, Relief::Modulo(m)).unwrap();
    assert_eq!(counts, vec![99, 97, 8, 103]);
    let counts = run(example(), 10000, Relief::Modulo(m)).unwrap();
    assert_eq!(monkey_business(&counts), Some(2713310158));
}

#[test]
fn runs_are_deterministic() {
    let a = run(example(), 50, Relief::Modulo(96577)).unwrap();
    let b = run(example(), 50, Relief::Modulo(96577)).unwrap();
    assert_eq!(a, b);
}

#[test]
fn queues_after_round_one() {
    let mut monkeys = example();
    let mut observer = vec![0usize; 4];
    assert!(round(&mut monkeys, &mut observer, Relief::Divide(3)));
    assert_eq!(items(&monkeys[0]), vec![20, 23, 27, 26]);
    assert_eq!(items(&monkeys[1]), vec![2080, 25, 167, 207, 401, 1046]);
    assert!(items(&monkeys[2]).is_empty());
    assert!(items(&monkeys[3]).is_empty());
}

#[test]
fn turn_drains_items_thrown_to_itself() {
    // Even levels come back to monkey 0 once; after adding 1 they are odd and leave.
    let mut m0 = Monkey::new(Operation::Add(1), 2, 0, 1);
    m0.catch(1);
    m0.catch(4);
    let m1 = Monkey::new(Operation::Add(1), 2, 1, 0);
    let mut monkeys = vec![m0, m1];
    let mut observer = vec![0usize; 2];
    assert!(take_turn(&mut monkeys, &mut observer, 0, Relief::Modulo(1000)));
    assert!(items(&monkeys[0]).is_empty());
    assert_eq!(items(&monkeys[1]), vec![5, 3]);
    assert_eq!(observer, vec![3, 0]);
}

#[test]
fn later_monkeys_act_in_the_same_round_earlier_ones_wait() {
    // Monkey 0 throws to 1, which throws everything back to 0.
    let mut m0 = Monkey::new(Operation::Add(0), 1, 1, 1);
    m0.catch(7);
    let m1 = Monkey::new(Operation::Add(0), 1, 0, 0);
    let mut monkeys = vec![m0, m1];
    let mut observer = vec![0usize; 2];
    assert!(round(&mut monkeys, &mut observer, Relief::Modulo(100)));
    assert_eq!(observer, vec![1, 1]);
    assert_eq!(items(&monkeys[0]), vec![7]);
    assert!(items(&monkeys[1]).is_empty());
}

#[test]
fn overflow_stops_the_run() {
    let mut m0 = Monkey::new(Operation::Square, 7, 1, 1);
    m0.catch(1usize << 40);
    let m1 = Monkey::new(Operation::Add(1), 7, 0, 0);
    assert_eq!(run(vec![m0, m1], 1, Relief::Divide(1)), None);
}

#[test]
fn operations_apply_exactly() {
    assert_eq!(Operation::Add(6).apply(54), 60);
    assert_eq!(Operation::Mul(19).apply(79), 1501);
    assert_eq!(Operation::Square.apply(79), 6241);
    assert!(Operation::Square.can_apply(1 << 31));
    assert!(!Operation::Square.can_apply(1 << 33));
    assert!(!Operation::Add(1).can_apply(usize::MAX));
}

#[test]
fn inspections_route_by_divisibility() {
    let mut monkeys = example();
    assert_eq!(monkeys[0].inspect_next_item_divide(3), Some((3, 500)));
    assert_eq!(monkeys[0].inspect_next_item_divide(3), Some((3, 620)));
    assert_eq!(monkeys[0].inspect_next_item_divide(3), None);
    assert_eq!(monkeys[2].inspect_next_item_divide(3), Some((1, 2080)));
    assert_eq!(monkeys[2].inspect_next_item_modulo(96577), Some((3, 3600)));
    assert_eq!(monkeys[1].inspect_next_item_modulo(7), Some((0, 4)));
}

#[test]
fn well_formedness_is_checked() {
    let bad_target = vec![Monkey::new(Operation::Square, 2, 0, 1)];
    assert!(!is_well_formed(&bad_target));
    let zero_divisor = vec![Monkey::new(Operation::Square, 0, 0, 0)];
    assert!(!is_well_formed(&zero_divisor));
    let fine = vec![Monkey::new(Operation::Square, 3, 0, 0)];
    assert!(is_well_formed(&fine));
}

#[test]
fn monkey_business_edges() {
    assert_eq!(monkey_business(&vec![]), None);
    assert_eq!(monkey_business(&vec![5]), None);
    assert_eq!(monkey_business(&vec![3, 9, 9, 1]), Some(81));
    assert_eq!(monkey_business(&vec![usize::MAX, 2]), None);
}

#[test]
fn divisor_product_overflow() {
    let big = vec![
        Monkey::new(Operation::Square, usize::MAX, 0, 0),
        Monkey::new(Operation::Square, 2, 0, 0),
    ];
    assert_eq!(divisor_product(&big), None);
}

#[test]
fn modulus_keeps_every_routing_decision() {
    // Without relief (division by 1) levels stay exact for a few rounds;
    // reducing modulo the divisor product must route every item the same way.
    let m = divisor_product(&example()).unwrap();
    for rounds in 1..=3 {
        let exact = run(example(), rounds, Relief::Divide(1)).unwrap();
        let reduced = run(example(), rounds, Relief::Modulo(m)).unwrap();
        assert_eq!(exact, reduced);
    }
    let mut a = example();
    let mut b = example();
    for _ in 0..2 {
        let exact = a[2].inspect_next_item_divide(1).unwrap();
        let reduced = b[2].inspect_next_item_modulo(m).unwrap();
        assert_eq!(exact.0, reduced.0);
        assert_eq!(exact.1 % m, reduced.1);
    }
}
