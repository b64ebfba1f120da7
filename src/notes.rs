//! Reading the monkeys' descriptions from the puzzle's notes, one line at a
//! time.

use crate::monkey::{Monkey, Operation};
use crate::text::{
    contains, find_from, lines_view, matches_at, parse_usize, parse_usize_spec, second_piece,
    second_piece_exec, split, split_on, starts_with, to_chars,
};
use vstd::prelude::*;

verus! {

/// A monkey as the notes describe it: operation, test divisor, the targets
/// for a passing and a failing test, and the starting items.
pub type Description = (Operation, usize, usize, usize, Seq<usize>);

/// What has been read so far: the finished descriptions, then the starting
/// items, operation, divisor and two targets of the block being read.
pub type Reading = (Seq<Description>, Seq<usize>, Option<Operation>, usize, usize, usize);

/// The numbers in `ps`, where every piece is one.
pub open spec fn parse_all(ps: Seq<Seq<char>>) -> Option<Seq<usize>>
    decreases ps.len(),
{
    if ps.len() == 0 {
        Some(seq![])
    } else {
        match (parse_all(ps.drop_last()), parse_usize_spec(ps.last())) {
            (Some(a), Some(x)) => Some(a.push(x)),
            _ => None,
        }
    }
}

/// The number between the first `pat` of `line` and the next one.
pub open spec fn number_after(line: Seq<char>, pat: Seq<char>) -> Option<usize> {
    match second_piece(line, pat) {
        Some(p) => parse_usize_spec(p),
        None => None,
    }
}

/// The list after `": "` on a line of starting items.
pub open spec fn items_of(line: Seq<char>) -> Option<Seq<usize>> {
    match second_piece(line, ": "@) {
        Some(p) => parse_all(split_on(p, ", "@)),
        None => None,
    }
}

/// The operation that an operation line describes.
pub open spec fn operation_of(line: Seq<char>) -> Option<Operation> {
    if find_from(line, "old * old"@, 0) is Some {
        Some(Operation::Square)
    } else if find_from(line, "old *"@, 0) is Some {
        match number_after(line, "old * "@) {
            Some(k) => Some(Operation::Mul(k)),
            None => None,
        }
    } else {
        match number_after(line, "old + "@) {
            Some(k) => Some(Operation::Add(k)),
            None => None,
        }
    }
}

/// The reading after one more line. An empty line ends a block and adds its
/// description; lines of starting items, operation, test and targets set
/// that part of the block; other lines change nothing. `None` where a number
/// is malformed, or a block ends before it has an operation.
pub open spec fn read_step(st: Reading, line: Seq<char>) -> Option<Reading> {
    if line.len() == 0 {
        match st.2 {
            Some(op) => Some((st.0.push((op, st.3, st.4, st.5, st.1)), st.1, st.2, st.3, st.4, st.5)),
            None => None,
        }
    } else if matches_at(line, "  Starting items"@, 0) {
        match items_of(line) {
            Some(it) => Some((st.0, it, st.2, st.3, st.4, st.5)),
            None => None,
        }
    } else if matches_at(line, "  Operation:"@, 0) {
        match operation_of(line) {
            Some(op) => Some((st.0, st.1, Some(op), st.3, st.4, st.5)),
            None => None,
        }
    } else if matches_at(line, "  Test:"@, 0) {
        match number_after(line, "divisible by "@) {
            Some(d) => Some((st.0, st.1, st.2, d, st.4, st.5)),
            None => None,
        }
    } else if matches_at(line, "    If true:"@, 0) {
        match number_after(line, "to monkey "@) {
            Some(t) => Some((st.0, st.1, st.2, st.3, t, st.5)),
            None => None,
        }
    } else if matches_at(line, "    If false:"@, 0) {
        match number_after(line, "to monkey "@) {
            Some(t) => Some((st.0, st.1, st.2, st.3, st.4, t)),
            None => None,
        }
    } else {
        Some(st)
    }
}

/// The reading after all of `lines`.
pub open spec fn read_lines(lines: Seq<Seq<char>>) -> Option<Reading>
    decreases lines.len(),
{
    if lines.len() == 0 {
        Some((seq![], seq![], None, 0, 0, 0))
    } else {
        match read_lines(lines.drop_last()) {
            Some(st) => read_step(st, lines.last()),
            None => None,
        }
    }
}

/// `m` is the monkey that `d` describes.
pub open spec fn describes(m: Monkey, d: Description) -> bool {
    &&& m.operation == d.0
    &&& m.test == d.1
    &&& m.if_true == d.2
    &&& m.if_false == d.3
    &&& m.items@ == d.4
}

/// Every piece of `ps` parsed as a number.
pub fn parse_list(ps: &Vec<Vec<char>>) -> (r: Option<Vec<usize>>)
    ensures
        r matches Some(v) ==> parse_all(ps@.map_values(|p: Vec<char>| p@)) == Some(v@),
        r is None ==> parse_all(ps@.map_values(|p: Vec<char>| p@)) is None,
{
    let ghost pv = ps@.map_values(|p: Vec<char>| p@);
    let mut v: Vec<usize> = Vec::new();
    let mut i: usize = 0;
    while i < ps.len()
        invariant
            i <= ps@.len(),
            pv == ps@.map_values(|p: Vec<char>| p@),
            parse_all(pv.subrange(0, i as int)) == Some(v@),
        decreases ps@.len() - i,
    {
        let x = parse_usize(&ps[i]);
        proof {
            assert(pv.subrange(0, i + 1).drop_last() =~= pv.subrange(0, i as int));
            assert(pv.subrange(0, i + 1).last() == ps@[i as int]@);
        }
        match x {
            Some(x) => {
                v.push(x);
            },
            None => {
                proof {
                    lemma_parse_all_prefix(pv, i + 1);
                }
                return None;
            },
        }
        i += 1;
    }
    assert(pv.subrange(0, i as int) =~= pv);
    Some(v)
}

proof fn lemma_parse_all_prefix(ps: Seq<Seq<char>>, k: int)
    requires
        0 <= k <= ps.len(),
        parse_all(ps.subrange(0, k)) is None,
    ensures
        parse_all(ps) is None,
    decreases ps.len(),
{
    if k < ps.len() {
        assert(ps.drop_last().subrange(0, k) =~= ps.subrange(0, k));
        lemma_parse_all_prefix(ps.drop_last(), k);
    } else {
        assert(ps.subrange(0, k) =~= ps);
    }
}

fn number_after_exec(line: &Vec<char>, pat: &str) -> (r: Option<usize>)
    requires
        pat@.len() > 0,
    ensures
        r == number_after(line@, pat@),
{
    let p = to_chars(pat);
    match second_piece_exec(line, &p) {
        Some(piece) => parse_usize(&piece),
        None => None,
    }
}

fn items_of_exec(line: &Vec<char>) -> (r: Option<Vec<usize>>)
    ensures
        r matches Some(v) ==> items_of(line@) == Some(v@),
        r is None ==> items_of(line@) is None,
{
    let colon = to_chars(": ");
    let comma = to_chars(", ");
    proof {
        reveal_strlit(": ");
        reveal_strlit(", ");
    }
    match second_piece_exec(line, &colon) {
        Some(piece) => {
            let pieces = split(&piece, &comma);
            assert(pieces@.map_values(|p: Vec<char>| p@) =~= split_on(piece@, ", "@));
            parse_list(&pieces)
        },
        None => None,
    }
}

fn operation_of_exec(line: &Vec<char>) -> (r: Option<Operation>)
    ensures
        r == operation_of(line@),
{
    proof {
        reveal_strlit("old * ");
        reveal_strlit("old + ");
    }
    if contains(line, &to_chars("old * old")) {
        Some(Operation::Square)
    } else if contains(line, &to_chars("old *")) {
        match number_after_exec(line, "old * ") {
            Some(k) => Some(Operation::Mul(k)),
            None => None,
        }
    } else {
        match number_after_exec(line, "old + ") {
            Some(k) => Some(Operation::Add(k)),
            None => None,
        }
    }
}


proof fn lemma_read_lines_prefix(lines: Seq<Seq<char>>, k: int)
    requires
        0 <= k <= lines.len(),
        read_lines(lines.subrange(0, k)) is None,
    ensures
        read_lines(lines) is None,
    decreases lines.len(),
{
    if k < lines.len() {
        assert(lines.drop_last().subrange(0, k) =~= lines.subrange(0, k));
        lemma_read_lines_prefix(lines.drop_last(), k);
    } else {
        assert(lines.subrange(0, k) =~= lines);
    }
}

/// The monkeys that `lines` describe, each with its starting items queued in
/// order. A block ends at an empty line; a block that the lines leave
/// unfinished is dropped. `None` where a number is malformed or a block ends
/// without an operation.
pub fn read_monkeys(lines: Vec<&str>) -> (r: Option<Vec<Monkey>>)
    ensures
        r is Some <==> read_lines(lines_view(lines@)) is Some,
        r matches Some(ms) ==> {
            let descs = read_lines(lines_view(lines@)).unwrap().0;
            &&& ms@.len() == descs.len()
            &&& forall|k: int| 0 <= k < ms@.len() ==> #[trigger] describes(ms@[k], descs[k])
        },
{
    let ghost lv = lines_view(lines@);
    let mut monkeys: Vec<Monkey> = Vec::new();
    let mut items: Vec<usize> = Vec::new();
    let mut operation: Option<Operation> = None;
    let mut test: usize = 0;
    let mut if_true: usize = 0;
    let mut if_false: usize = 0;
    let ghost mut descs: Seq<Description> = seq![];
    let starting = to_chars("  Starting items");
    let op_line = to_chars("  Operation:");
    let test_line = to_chars("  Test:");
    let true_line = to_chars("    If true:");
    let false_line = to_chars("    If false:");
    proof {
        assert(lv.subrange(0, 0) =~= Seq::<Seq<char>>::empty());
    }
    let mut i: usize = 0;
    while i < lines.len()
        invariant
            i <= lines@.len(),
            lv == lines_view(lines@),
            starting@ == "  Starting items"@,
            op_line@ == "  Operation:"@,
            test_line@ == "  Test:"@,
            true_line@ == "    If true:"@,
            false_line@ == "    If false:"@,
            read_lines(lv.subrange(0, i as int)) == Some((descs, items@, operation, test, if_true, if_false)),
            monkeys@.len() == descs.len(),
            forall|k: int| 0 <= k < monkeys@.len() ==> #[trigger] describes(monkeys@[k], descs[k]),
        decreases lines@.len() - i,
    {
        let line = to_chars(lines[i]);
        let ghost st = (descs, items@, operation, test, if_true, if_false);
        proof {
            assert(lv.subrange(0, i + 1).drop_last() =~= lv.subrange(0, i as int));
            assert(lv.subrange(0, i + 1).last() == line@);
        }
        if line.len() == 0 {
            match operation {
                Some(op) => {
                    let mut m = Monkey::new(op, test, if_true, if_false);
                    let mut k: usize = 0;
                    while k < items.len()
                        invariant
                            k <= items@.len(),
                            m.operation == op,
                            m.test == test,
                            m.if_true == if_true,
                            m.if_false == if_false,
                            m.items@ == items@.subrange(0, k as int),
                        decreases items@.len() - k,
                    {
                        m.catch(items[k]);
                        k += 1;
                        assert(m.items@ =~= items@.subrange(0, k as int));
                    }
                    assert(items@.subrange(0, k as int) =~= items@);
                    monkeys.push(m);
                    proof {
                        descs = descs.push((op, test, if_true, if_false, items@));
                    }
                },
                None => {
                    proof {
                        lemma_read_lines_prefix(lv, i + 1);
                    }
                    return None;
                },
            }
        } else if starts_with(&line, &starting) {
            match items_of_exec(&line) {
                Some(v) => {
                    items = v;
                },
                None => {
                    proof {
                        lemma_read_lines_prefix(lv, i + 1);
                    }
                    return None;
                },
            }
        } else if starts_with(&line, &op_line) {
            match operation_of_exec(&line) {
                Some(op) => {
                    operation = Some(op);
                },
                None => {
                    proof {
                        lemma_read_lines_prefix(lv, i + 1);
                    }
                    return None;
                },
            }
        } else if starts_with(&line, &test_line) {
            proof {
                reveal_strlit("divisible by ");
            }
            match number_after_exec(&line, "divisible by ") {
                Some(d) => {
                    test = d;
                },
                None => {
                    proof {
                        lemma_read_lines_prefix(lv, i + 1);
                    }
                    return None;
                },
            }
        } else if starts_with(&line, &true_line) {
            proof {
                reveal_strlit("to monkey ");
            }
            match number_after_exec(&line, "to monkey ") {
                Some(t) => {
                    if_true = t;
                },
                None => {
                    proof {
                        lemma_read_lines_prefix(lv, i + 1);
                    }
                    return None;
                },
            }
        } else if starts_with(&line, &false_line) {
            proof {
                reveal_strlit("to monkey ");
            }
            match number_after_exec(&line, "to monkey ") {
                Some(t) => {
                    if_false = t;
                },
                None => {
                    proof {
                        lemma_read_lines_prefix(lv, i + 1);
                    }
                    return None;
                },
            }
        }
        i += 1;
    }
    assert(lv.subrange(0, i as int) =~= lv);
    Some(monkeys)
}

} // verus!
