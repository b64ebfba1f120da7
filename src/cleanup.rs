//! Camp cleanup: pairs of section ranges written `"2-4,6-8"`.

use crate::text::{parse_u32, parse_u32_spec, split, split_on, to_chars};
use vstd::prelude::*;

verus! {

/// The groups of `ss` one after another.
pub open spec fn concat_pieces(ss: Seq<Seq<Seq<char>>>) -> Seq<Seq<char>>
    decreases ss.len(),
{
    if ss.len() == 0 {
        seq![]
    } else {
        concat_pieces(ss.drop_last()) + ss.last()
    }
}

/// The fields of a line: its pieces between commas, each cut at its dashes.
pub open spec fn range_fields(s: Seq<char>) -> Seq<Seq<char>> {
    concat_pieces(split_on(s, ","@).map_values(|p: Seq<char>| split_on(p, "-"@)))
}

/// The numbers in `ps`, where every piece is one that fits in `u32`.
pub open spec fn parse_all_u32(ps: Seq<Seq<char>>) -> Option<Seq<u32>>
    decreases ps.len(),
{
    if ps.len() == 0 {
        Some(seq![])
    } else {
        match (parse_all_u32(ps.drop_last()), parse_u32_spec(ps.last())) {
            (Some(a), Some(x)) => Some(a.push(x)),
            _ => None,
        }
    }
}

/// The two ranges of a line; `None` where a field is no number or there are
/// fewer than four.
pub open spec fn pair_spec(s: Seq<char>) -> Option<((u32, u32), (u32, u32))> {
    match parse_all_u32(range_fields(s)) {
        Some(v) => if v.len() >= 4 {
            Some(((v[0], v[1]), (v[2], v[3])))
        } else {
            None
        },
        None => None,
    }
}

/// One range holds the other.
pub open spec fn one_contains_other(p: ((u32, u32), (u32, u32))) -> bool {
    let ((b1, e1), (b2, e2)) = p;
    (b2 <= b1 && e2 >= e1) || (b1 <= b2 && e1 >= e2)
}

/// The ranges share a section.
pub open spec fn ranges_overlap(p: ((u32, u32), (u32, u32))) -> bool {
    let ((b1, e1), (b2, e2)) = p;
    (b2 >= b1 && b2 <= e1) || (b1 >= b2 && b1 <= e2)
}

proof fn lemma_parse_all_u32_append_none(xs: Seq<Seq<char>>, ys: Seq<Seq<char>>)
    requires
        parse_all_u32(xs) is None,
    ensures
        parse_all_u32(xs + ys) is None,
    decreases ys.len(),
{
    if ys.len() == 0 {
        assert(xs + ys =~= xs);
    } else {
        assert((xs + ys).drop_last() =~= xs + ys.drop_last());
        lemma_parse_all_u32_append_none(xs, ys.drop_last());
    }
}

/// Reads `"b1-e1,b2-e2"` as the two ranges.
pub fn split_pairs(pair: &str) -> (r: Option<((u32, u32), (u32, u32))>)
    ensures
        r == pair_spec(pair@),
{
    let s = to_chars(pair);
    let comma = to_chars(",");
    let dash = to_chars("-");
    proof {
        reveal_strlit(",");
        reveal_strlit("-");
    }
    let groups = split(&s, &comma);
    let ghost gs = split_on(s@, ","@).map_values(|p: Seq<char>| split_on(p, "-"@));
    let mut values: Vec<u32> = Vec::new();
    let mut i: usize = 0;
    while i < groups.len()
        invariant
            i <= groups@.len(),
            gs.len() == groups@.len(),
            concat_pieces(gs) == range_fields(pair@),
            dash@ == "-"@,
            dash@.len() > 0,
            forall|k: int| 0 <= k < groups@.len() ==> #[trigger] gs[k] == split_on(groups@[k]@, "-"@),
            parse_all_u32(concat_pieces(gs.subrange(0, i as int))) == Some(values@),
        decreases groups@.len() - i,
    {
        let pieces = split(&groups[i], &dash);
        let ghost before = concat_pieces(gs.subrange(0, i as int));
        proof {
            assert(gs.subrange(0, i + 1).drop_last() =~= gs.subrange(0, i as int));
        }
        let mut k: usize = 0;
        while k < pieces.len()
            invariant
                i < groups@.len(),
                gs.len() == groups@.len(),
                concat_pieces(gs) == range_fields(pair@),
                before == concat_pieces(gs.subrange(0, i as int)),
                gs.subrange(0, i + 1).drop_last() == gs.subrange(0, i as int),
                k <= pieces@.len(),
                gs[i as int] == split_on(groups@[i as int]@, "-"@),
                pieces@.len() == gs[i as int].len(),
                forall|j: int| 0 <= j < pieces@.len() ==> #[trigger] pieces@[j]@ == gs[i as int][j],
                parse_all_u32(before + gs[i as int].subrange(0, k as int)) == Some(values@),
            decreases pieces@.len() - k,
        {
            let ghost cur = before + gs[i as int].subrange(0, k as int);
            proof {
                assert((before + gs[i as int].subrange(0, k + 1)).drop_last() =~= cur);
                assert((before + gs[i as int].subrange(0, k + 1)).last() == pieces@[k as int]@);
            }
            match parse_u32(&pieces[k]) {
                Some(x) => {
                    values.push(x);
                },
                None => {
                    proof {
                        let whole = concat_pieces(gs);
                        let done = before + gs[i as int].subrange(0, k + 1);
                        assert(done.drop_last() =~= cur);
                        assert(parse_all_u32(done) is None);
                        lemma_concat_prefix(gs, i as int + 1);
                        let c = concat_pieces(gs.subrange(0, i + 1));
                        assert(c =~= before + gs[i as int]);
                        assert(c.subrange(0, done.len() as int) =~= done);
                        assert(whole.subrange(0, done.len() as int) =~= done);
                        let tail = whole.subrange(done.len() as int, whole.len() as int);
                        assert(whole =~= done + tail);
                        lemma_parse_all_u32_append_none(done, tail);
                    }
                    return None;
                },
            }
            k += 1;
        }
        assert(gs[i as int].subrange(0, k as int) =~= gs[i as int]);
        i += 1;
    }
    assert(gs.subrange(0, i as int) =~= gs);
    if values.len() >= 4 {
        Some(((values[0], values[1]), (values[2], values[3])))
    } else {
        None
    }
}

/// Concatenating a prefix of the groups gives a prefix of the whole.
proof fn lemma_concat_prefix(ss: Seq<Seq<Seq<char>>>, k: int)
    requires
        0 <= k <= ss.len(),
    ensures
        concat_pieces(ss.subrange(0, k)).len() <= concat_pieces(ss).len(),
        concat_pieces(ss).subrange(0, concat_pieces(ss.subrange(0, k)).len() as int) == concat_pieces(ss.subrange(0, k)),
    decreases ss.len(),
{
    if k < ss.len() {
        assert(ss.drop_last().subrange(0, k) =~= ss.subrange(0, k));
        lemma_concat_prefix(ss.drop_last(), k);
        let p = concat_pieces(ss.subrange(0, k));
        let w = concat_pieces(ss.drop_last());
        assert((w + ss.last()).subrange(0, p.len() as int) =~= w.subrange(0, p.len() as int));
    } else {
        assert(ss.subrange(0, k) =~= ss);
        assert(concat_pieces(ss).subrange(0, concat_pieces(ss).len() as int) =~= concat_pieces(ss));
    }
}

/// 1 where one range of the line holds the other, else 0; `None` where the
/// line is no pair of ranges.
pub fn part_one(pair: &str) -> (r: Option<u32>)
    ensures
        r == match pair_spec(pair@) {
            Some(p) => Some(if one_contains_other(p) { 1u32 } else { 0u32 }),
            None => None,
        },
{
    match split_pairs(pair) {
        Some(((b1, e1), (b2, e2))) => if (b2 <= b1 && e2 >= e1) || (b1 <= b2 && e1 >= e2) {
            Some(1)
        } else {
            Some(0)
        },
        None => None,
    }
}

/// 1 where the two ranges of the line overlap, else 0; `None` where the line
/// is no pair of ranges.
pub fn part_two(pair: &str) -> (r: Option<u32>)
    ensures
        r == match pair_spec(pair@) {
            Some(p) => Some(if ranges_overlap(p) { 1u32 } else { 0u32 }),
            None => None,
        },
{
    match split_pairs(pair) {
        Some(((b1, e1), (b2, e2))) => if b2 >= b1 && b2 <= e1 {
            Some(1)
        } else if b1 >= b2 && b1 <= e2 {
            Some(1)
        } else {
            Some(0)
        },
        None => None,
    }
}

} // verus!
