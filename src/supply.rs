//! Supply stacks: crates moved between stacks by a crane, one at a time or
//! several at once, and the crates left on top.

use crate::text::{
    lines_view, matches_at, parse_usize, parse_usize_spec, split, split_on, starts_with,
    to_chars,
};
use vstd::prelude::*;

verus! {

/// Relies on `String::push`: the character is appended to the string.
#[verifier::external_body]
fn push_char(s: &mut String, c: char)
    ensures
        final(s)@ == old(s)@.push(c),
{
    s.push(c);
}

/// The stacks as sequences of crates, bottom first.
pub open spec fn stacks_view(st: Seq<Vec<char>>) -> Seq<Seq<char>> {
    Seq::new(st.len(), |i: int| st[i]@)
}

/// Moves the top crate of stack `from` onto stack `to`; `None` where a stack
/// does not exist or `from` is empty.
pub open spec fn move_one(st: Seq<Seq<char>>, from: int, to: int) -> Option<Seq<Seq<char>>> {
    if !(0 <= from < st.len() && 0 <= to < st.len()) || st[from].len() == 0 {
        None
    } else {
        let s1 = st.update(from, st[from].drop_last());
        Some(s1.update(to, s1[to].push(st[from].last())))
    }
}

/// Moves `n` crates one at a time.
pub open spec fn move_each(st: Seq<Seq<char>>, n: nat, from: int, to: int) -> Option<Seq<Seq<char>>>
    decreases n,
{
    if n == 0 {
        if 0 <= from < st.len() && 0 <= to < st.len() {
            Some(st)
        } else {
            None
        }
    } else {
        match move_one(st, from, to) {
            Some(s1) => move_each(s1, (n - 1) as nat, from, to),
            None => None,
        }
    }
}

/// Moves the top `n` crates of `from` onto `to` at once, keeping their order.
pub open spec fn move_block(st: Seq<Seq<char>>, n: nat, from: int, to: int) -> Option<Seq<Seq<char>>> {
    if !(0 <= from < st.len() && 0 <= to < st.len()) || n > st[from].len() {
        None
    } else {
        let k = st[from].len() - n;
        let taken = st[from].subrange(k, st[from].len() as int);
        let s1 = st.update(from, st[from].subrange(0, k));
        Some(s1.update(to, s1[to] + taken))
    }
}

/// Carries out the instructions `(count, from, to)` in order, one crate at a
/// time (`block` false) or a block at a time (`block` true).
pub open spec fn rearrange(st: Seq<Seq<char>>, ins: Seq<(usize, usize, usize)>, block: bool) -> Option<
    Seq<Seq<char>>,
>
    decreases ins.len(),
{
    if ins.len() == 0 {
        Some(st)
    } else {
        match rearrange(st, ins.drop_last(), block) {
            Some(s1) => {
                let (n, from, to) = ins.last();
                if block {
                    move_block(s1, n as nat, from as int, to as int)
                } else {
                    move_each(s1, n as nat, from as int, to as int)
                }
            },
            None => None,
        }
    }
}

/// The top crate of every stack; `None` where a stack is empty.
pub open spec fn tops(st: Seq<Seq<char>>) -> Option<Seq<char>> {
    if forall|i: int| 0 <= i < st.len() ==> #[trigger] st[i].len() > 0 {
        Some(Seq::new(st.len(), |i: int| st[i].last()))
    } else {
        None
    }
}

/// What the rearrangement leaves on top of the stacks.
pub open spec fn message(st: Seq<Seq<char>>, ins: Seq<(usize, usize, usize)>, block: bool) -> Option<Seq<char>> {
    match rearrange(st, ins, block) {
        Some(s) => tops(s),
        None => None,
    }
}

fn top_crates(stacks: &Vec<Vec<char>>) -> (r: Option<String>)
    ensures
        r matches Some(s) ==> tops(stacks_view(stacks@)) == Some(s@),
        r is None ==> tops(stacks_view(stacks@)) is None,
{
    let mut out = String::new();
    let mut i: usize = 0;
    while i < stacks.len()
        invariant
            i <= stacks@.len(),
            out@.len() == i,
            forall|k: int| 0 <= k < i ==> #[trigger] stacks@[k]@.len() > 0 && out@[k] == stacks@[k]@.last(),
        decreases stacks@.len() - i,
    {
        let n = stacks[i].len();
        if n == 0 {
            assert(stacks_view(stacks@)[i as int].len() == 0);
            return None;
        }
        push_char(&mut out, stacks[i][n - 1]);
        i += 1;
    }
    let ghost v = stacks_view(stacks@);
    assert(forall|k: int| 0 <= k < v.len() ==> #[trigger] v[k].len() > 0 && v[k] == stacks@[k]@);
    assert(out@ =~= Seq::new(v.len(), |k: int| v[k].last()));
    Some(out)
}

proof fn lemma_rearrange_prefix_none(st: Seq<Seq<char>>, ins: Seq<(usize, usize, usize)>, k: int, block: bool)
    requires
        0 <= k <= ins.len(),
        rearrange(st, ins.subrange(0, k), block) is None,
    ensures
        rearrange(st, ins, block) is None,
    decreases ins.len(),
{
    if k < ins.len() {
        assert(ins.drop_last().subrange(0, k) =~= ins.subrange(0, k));
        lemma_rearrange_prefix_none(st, ins.drop_last(), k, block);
    } else {
        assert(ins.subrange(0, k) =~= ins);
    }
}

/// Moves crates one at a time and reads the top crates; `None` where an
/// instruction names a missing stack or takes from an empty one, or a stack
/// ends empty.
#[verifier::loop_isolation(false)]
pub fn solve_part_one(crate_state: Vec<Vec<char>>, instructions: Vec<(usize, usize, usize)>) -> (r: Option<String>)
    ensures
        r matches Some(s) ==> message(stacks_view(crate_state@), instructions@, false) == Some(s@),
        r is None ==> message(stacks_view(crate_state@), instructions@, false) is None,
{
    let ghost st0 = stacks_view(crate_state@);
    let mut st = crate_state;
    let mut i: usize = 0;
    while i < instructions.len()
        invariant
            i <= instructions@.len(),
            rearrange(st0, instructions@.subrange(0, i as int), false) == Some(stacks_view(st@)),
        decreases instructions@.len() - i,
    {
        let (num, from, to) = instructions[i];
        let ghost before = stacks_view(st@);
        proof {
            assert(instructions@.subrange(0, i + 1).drop_last() =~= instructions@.subrange(0, i as int));
        }
        if from >= st.len() || to >= st.len() {
            proof {
                lemma_move_each_bad_index(before, num as nat, from as int, to as int);
                lemma_rearrange_prefix_none(st0, instructions@, i + 1, false);
            }
            return None;
        }
        let mut k: usize = 0;
        while k < num
            invariant
                k <= num,
                from < st@.len(),
                to < st@.len(),
                move_each(before, num as nat, from as int, to as int) == move_each(
                    stacks_view(st@),
                    (num - k) as nat,
                    from as int,
                    to as int,
                ),
            decreases num - k,
        {
            let ghost cur = stacks_view(st@);
            match st[from].pop() {
                Some(c) => {
                    st[to].push(c);
                    proof {
                        let s1 = cur.update(from as int, cur[from as int].drop_last());
                        assert(stacks_view(st@) =~= s1.update(to as int, s1[to as int].push(c)));
                    }
                },
                None => {
                    proof {
                        assert(move_one(cur, from as int, to as int) is None);
                        assert(move_each(cur, (num - k) as nat, from as int, to as int) is None);
                        assert(rearrange(st0, instructions@.subrange(0, i + 1), false) is None);
                        lemma_rearrange_prefix_none(st0, instructions@, i + 1, false);
                    }
                    return None;
                },
            }
            k += 1;
        }
        i += 1;
    }
    assert(instructions@.subrange(0, i as int) =~= instructions@);
    top_crates(&st)
}

proof fn lemma_move_each_bad_index(st: Seq<Seq<char>>, n: nat, from: int, to: int)
    requires
        !(0 <= from < st.len() && 0 <= to < st.len()),
    ensures
        move_each(st, n, from, to) is None,
    decreases n,
{
}

/// Moves crates a block at a time and reads the top crates; `None` where an
/// instruction names a missing stack or takes more crates than its stack
/// holds, or a stack ends empty.
#[verifier::loop_isolation(false)]
pub fn solve_part_two(crate_state: Vec<Vec<char>>, instructions: Vec<(usize, usize, usize)>) -> (r: Option<String>)
    ensures
        r matches Some(s) ==> message(stacks_view(crate_state@), instructions@, true) == Some(s@),
        r is None ==> message(stacks_view(crate_state@), instructions@, true) is None,
{
    let ghost st0 = stacks_view(crate_state@);
    let mut st = crate_state;
    let mut i: usize = 0;
    while i < instructions.len()
        invariant
            i <= instructions@.len(),
            rearrange(st0, instructions@.subrange(0, i as int), true) == Some(stacks_view(st@)),
        decreases instructions@.len() - i,
    {
        let (num, from, to) = instructions[i];
        let ghost before = stacks_view(st@);
        proof {
            assert(instructions@.subrange(0, i + 1).drop_last() =~= instructions@.subrange(0, i as int));
        }
        if from >= st.len() || to >= st.len() || num > st[from].len() {
            proof {
                lemma_rearrange_prefix_none(st0, instructions@, i + 1, true);
            }
            return None;
        }
        let length = st[from].len();
        let taken = st[from].split_off(length - num);
        let mut k: usize = 0;
        let ghost mid = stacks_view(st@);
        while k < taken.len()
            invariant
                k <= taken@.len(),
                from < st@.len(),
                to < st@.len(),
                st@.len() == mid.len(),
                forall|j: int| 0 <= j < mid.len() && j != to ==> #[trigger] stacks_view(st@)[j] == mid[j],
                stacks_view(st@)[to as int] == mid[to as int] + taken@.subrange(0, k as int),
            decreases taken@.len() - k,
        {
            let ghost prev = stacks_view(st@);
            st[to].push(taken[k]);
            assert(stacks_view(st@)[to as int] =~= mid[to as int] + taken@.subrange(0, k + 1));
            assert(forall|j: int| 0 <= j < mid.len() && j != to ==> #[trigger] stacks_view(st@)[j] == prev[j]);
            k += 1;
        }
        proof {
            let kk = before[from as int].len() - num;
            let s1 = before.update(from as int, before[from as int].subrange(0, kk));
            assert(mid =~= s1);
            assert(taken@.subrange(0, k as int) =~= before[from as int].subrange(kk, before[from as int].len() as int));
            assert(stacks_view(st@) =~= s1.update(to as int, s1[to as int] + taken@));
        }
        i += 1;
    }
    assert(instructions@.subrange(0, i as int) =~= instructions@);
    top_crates(&st)
}


/// Drawing state: the stacks, the run of empty pieces seen, and the column.
pub type Drawing = (Seq<Seq<char>>, nat, nat);

/// One piece of a drawing row split at spaces. Four empty pieces in a row
/// stand for an empty column; any other piece is a crate `[X]` whose
/// letter goes on the current column. `None` past the ninth column or for a
/// piece too short to hold a letter.
pub open spec fn piece_step(st: Drawing, piece: Seq<char>) -> Option<Drawing> {
    let (stacks, empty, col) = st;
    if piece.len() == 0 {
        if empty + 1 == 4 {
            Some((stacks, 0, col + 1))
        } else {
            Some((stacks, empty + 1, col))
        }
    } else if col >= 9 || piece.len() < 2 {
        None
    } else {
        Some((stacks.update(col as int, stacks[col as int].push(piece[1])), empty, col + 1))
    }
}

pub open spec fn pieces_step(st: Drawing, ps: Seq<Seq<char>>) -> Option<Drawing>
    decreases ps.len(),
{
    if ps.len() == 0 {
        Some(st)
    } else {
        match pieces_step(st, ps.drop_last()) {
            Some(s1) => piece_step(s1, ps.last()),
            None => None,
        }
    }
}

/// Draws rows `rows`, the last one first, each from the first column on;
/// the run of empty pieces carries over from row to row.
pub open spec fn draw_rows(st: (Seq<Seq<char>>, nat), rows: Seq<Seq<char>>) -> Option<(Seq<Seq<char>>, nat)>
    decreases rows.len(),
{
    if rows.len() == 0 {
        Some(st)
    } else {
        match pieces_step((st.0, st.1, 0), split_on(rows.last(), " "@)) {
            Some((stacks, empty, _)) => draw_rows((stacks, empty), rows.drop_last()),
            None => None,
        }
    }
}

/// The first line that starts with `" 1"` (the stack numbers), or the
/// number of lines.
pub open spec fn numbers_line(lines: Seq<Seq<char>>, i: int) -> int
    decreases lines.len() - i,
{
    if i < 0 || i >= lines.len() {
        lines.len() as int
    } else if matches_at(lines[i], " 1"@, 0) {
        i
    } else {
        numbers_line(lines, i + 1)
    }
}

/// An instruction `"move n from a to b"`, with 1-based stacks `a` and `b`
/// made 0-based.
pub open spec fn instruction_spec(line: Seq<char>) -> Option<(usize, usize, usize)> {
    let ps = split_on(line, " "@);
    if ps.len() < 6 {
        None
    } else {
        match (parse_usize_spec(ps[1]), parse_usize_spec(ps[3]), parse_usize_spec(ps[5])) {
            (Some(n), Some(a), Some(b)) => if a >= 1 && b >= 1 {
                Some((n, (a - 1) as usize, (b - 1) as usize))
            } else {
                None
            },
            _ => None,
        }
    }
}

pub open spec fn instructions_spec(lines: Seq<Seq<char>>) -> Option<Seq<(usize, usize, usize)>>
    decreases lines.len(),
{
    if lines.len() == 0 {
        Some(seq![])
    } else {
        match (instructions_spec(lines.drop_last()), instruction_spec(lines.last())) {
            (Some(a), Some(x)) => Some(a.push(x)),
            _ => None,
        }
    }
}

/// The nine stacks that the drawing above the numbers line shows, and the
/// instructions from the second line after it on.
pub open spec fn prepare_spec(lines: Seq<Seq<char>>) -> Option<(Seq<Seq<char>>, Seq<(usize, usize, usize)>)> {
    let e = numbers_line(lines, 0);
    let empty9 = Seq::new(9, |i: int| Seq::<char>::empty());
    match draw_rows((empty9, 0), lines.subrange(0, e)) {
        None => None,
        Some((stacks, _)) => {
            let rest = if e + 2 <= lines.len() {
                lines.subrange(e + 2, lines.len() as int)
            } else {
                seq![]
            };
            match instructions_spec(rest) {
                Some(ins) => Some((stacks, ins)),
                None => None,
            }
        },
    }
}

fn instruction(line: &Vec<char>) -> (r: Option<(usize, usize, usize)>)
    ensures
        r == instruction_spec(line@),
{
    let space = to_chars(" ");
    proof {
        reveal_strlit(" ");
    }
    let ps = split(line, &space);
    if ps.len() < 6 {
        return None;
    }
    match (parse_usize(&ps[1]), parse_usize(&ps[3]), parse_usize(&ps[5])) {
        (Some(n), Some(a), Some(b)) => if a >= 1 && b >= 1 {
            Some((n, a - 1, b - 1))
        } else {
            None
        },
        _ => None,
    }
}

proof fn lemma_pieces_prefix_none(st: Drawing, ps: Seq<Seq<char>>, k: int)
    requires
        0 <= k <= ps.len(),
        pieces_step(st, ps.subrange(0, k)) is None,
    ensures
        pieces_step(st, ps) is None,
    decreases ps.len(),
{
    if k < ps.len() {
        assert(ps.drop_last().subrange(0, k) =~= ps.subrange(0, k));
        lemma_pieces_prefix_none(st, ps.drop_last(), k);
    } else {
        assert(ps.subrange(0, k) =~= ps);
    }
}

proof fn lemma_instructions_prefix_none(lines: Seq<Seq<char>>, k: int)
    requires
        0 <= k <= lines.len(),
        instructions_spec(lines.subrange(0, k)) is None,
    ensures
        instructions_spec(lines) is None,
    decreases lines.len(),
{
    if k < lines.len() {
        assert(lines.drop_last().subrange(0, k) =~= lines.subrange(0, k));
        lemma_instructions_prefix_none(lines.drop_last(), k);
    } else {
        assert(lines.subrange(0, k) =~= lines);
    }
}

fn find_numbers_line(rows: &Vec<&str>) -> (e: usize)
    ensures
        e == numbers_line(lines_view(rows@), 0),
        e <= rows@.len(),
{
    let ghost lv = lines_view(rows@);
    let n = rows.len();
    let one = to_chars(" 1");
    let mut e: usize = 0;
    while e < n
        invariant
            e <= n,
            n == lv.len(),
            lv == lines_view(rows@),
            one@ == " 1"@,
            numbers_line(lv, 0) == numbers_line(lv, e as int),
        decreases n - e,
    {
        let line = to_chars(rows[e]);
        assert(lv[e as int] == line@);
        if starts_with(&line, &one) {
            return e;
        }
        e += 1;
    }
    e
}

/// Draws one row of the picture onto the stacks.
fn draw_row(stacks: &mut Vec<Vec<char>>, num_empty: &mut usize, line: &Vec<char>) -> (ok: bool)
    requires
        old(stacks)@.len() == 9,
        *old(num_empty) < 4,
    ensures
        final(stacks)@.len() == 9,
        *final(num_empty) < 4,
        ok == pieces_step(
            (stacks_view(old(stacks)@), *old(num_empty) as nat, 0),
            split_on(line@, " "@),
        ) is Some,
        ok ==> (pieces_step((stacks_view(old(stacks)@), *old(num_empty) as nat, 0), split_on(line@, " "@))
            matches Some((st, ne, _)) && st == stacks_view(final(stacks)@) && ne == *final(num_empty)),
{
    let space = to_chars(" ");
    proof {
        reveal_strlit(" ");
    }
    let pieces = split(line, &space);
    let ghost ps = split_on(line@, " "@);
    let ghost start: Drawing = (stacks_view(stacks@), *num_empty as nat, 0);
    let mut col: usize = 0;
    let mut p: usize = 0;
    while p < pieces.len()
        invariant
            p <= pieces@.len(),
            pieces@.len() == ps.len(),
            ps == split_on(line@, " "@),
            start == (stacks_view(old(stacks)@), *old(num_empty) as nat, 0nat),
            forall|j: int| 0 <= j < pieces@.len() ==> #[trigger] pieces@[j]@ == ps[j],
            stacks@.len() == 9,
            *num_empty < 4,
            col <= p,
            pieces_step(start, ps.subrange(0, p as int)) == Some(
                (stacks_view(stacks@), *num_empty as nat, col as nat),
            ),
        decreases pieces@.len() - p,
    {
        proof {
            assert(ps.subrange(0, p + 1).drop_last() =~= ps.subrange(0, p as int));
            assert(ps.subrange(0, p + 1).last() == pieces@[p as int]@);
        }
        let piece = &pieces[p];
        if piece.len() == 0 {
            *num_empty += 1;
            if *num_empty == 4 {
                col += 1;
                *num_empty = 0;
            }
        } else if col >= 9 || piece.len() < 2 {
            proof {
                lemma_pieces_prefix_none(start, ps, p + 1);
            }
            return false;
        } else {
            let ghost before = stacks_view(stacks@);
            stacks[col].push(piece[1]);
            assert(stacks_view(stacks@) =~= before.update(col as int, before[col as int].push(piece@[1])));
            col += 1;
        }
        p += 1;
    }
    assert(ps.subrange(0, p as int) =~= ps);
    true
}

/// The instructions on lines `from` to the end.
fn read_instructions(rows: &Vec<&str>, from: usize) -> (r: Option<Vec<(usize, usize, usize)>>)
    requires
        from <= rows@.len(),
    ensures
        r is Some <==> instructions_spec(lines_view(rows@).subrange(from as int, rows@.len() as int)) is Some,
        r matches Some(v) ==> instructions_spec(lines_view(rows@).subrange(from as int, rows@.len() as int))
            == Some(v@),
{
    let ghost rest = lines_view(rows@).subrange(from as int, rows@.len() as int);
    let n = rows.len();
    let mut instructions: Vec<(usize, usize, usize)> = Vec::new();
    let mut j: usize = from;
    assert(rest.subrange(0, 0) =~= Seq::<Seq<char>>::empty());
    while j < n
        invariant
            from <= j <= n,
            n == rows@.len(),
            rest == lines_view(rows@).subrange(from as int, n as int),
            instructions_spec(rest.subrange(0, j - from)) == Some(instructions@),
        decreases n - j,
    {
        let line = to_chars(rows[j]);
        proof {
            assert(rest.subrange(0, j - from + 1).drop_last() =~= rest.subrange(0, j - from));
            assert(rest.subrange(0, j - from + 1).last() == line@);
        }
        match instruction(&line) {
            Some(x) => {
                instructions.push(x);
            },
            None => {
                proof {
                    lemma_instructions_prefix_none(rest, j - from + 1);
                }
                return None;
            },
        }
        j += 1;
    }
    assert(rest.subrange(0, j - from) =~= rest);
    Some(instructions)
}

/// Reads the drawing of the stacks and the list of moves; `None` where the
/// drawing has a crate past the ninth column or a piece too short for a
/// letter, or an instruction is malformed.
pub fn prepare_data(rows: Vec<&str>) -> (r: Option<(Vec<Vec<char>>, Vec<(usize, usize, usize)>)>)
    ensures
        r is Some <==> prepare_spec(lines_view(rows@)) is Some,
        r matches Some((st, ins)) ==> prepare_spec(lines_view(rows@)) == Some((stacks_view(st@), ins@)),
{
    let ghost lv = lines_view(rows@);
    let n = rows.len();
    let e = find_numbers_line(&rows);
    let mut stacks: Vec<Vec<char>> = Vec::new();
    let mut k: usize = 0;
    while k < 9
        invariant
            k <= 9,
            stacks@.len() == k,
            forall|j: int| 0 <= j < k ==> #[trigger] stacks@[j]@ == Seq::<char>::empty(),
        decreases 9 - k,
    {
        stacks.push(Vec::new());
        k += 1;
    }
    let ghost empty9 = Seq::new(9, |i: int| Seq::<char>::empty());
    assert(stacks_view(stacks@) =~= empty9);
    let mut num_empty: usize = 0;
    let mut i: usize = e;
    while i > 0
        invariant
            i <= e,
            e <= n,
            n == rows@.len(),
            lv == lines_view(rows@),
            numbers_line(lv, 0) == e,
            empty9 == Seq::new(9, |i: int| Seq::<char>::empty()),
            stacks@.len() == 9,
            num_empty < 4,
            draw_rows((empty9, 0), lv.subrange(0, e as int)) == draw_rows(
                (stacks_view(stacks@), num_empty as nat),
                lv.subrange(0, i as int),
            ),
        decreases i,
    {
        let line = to_chars(rows[i - 1]);
        proof {
            assert(lv.subrange(0, i as int).last() == line@);
            assert(lv.subrange(0, i as int).drop_last() =~= lv.subrange(0, i - 1));
        }
        let ghost cur = (stacks_view(stacks@), num_empty as nat);
        if !draw_row(&mut stacks, &mut num_empty, &line) {
            assert(draw_rows(cur, lv.subrange(0, i as int)) is None);
            return None;
        }
        i -= 1;
    }
    let from = if n >= 2 && e <= n - 2 {
        e + 2
    } else {
        n
    };
    assert(lv.subrange(from as int, n as int) =~= (if e + 2 <= lv.len() {
        lv.subrange(e + 2, lv.len() as int)
    } else {
        seq![]
    }));
    match read_instructions(&rows, from) {
        Some(ins) => Some((stacks, ins)),
        None => None,
    }
}

} // verus!
