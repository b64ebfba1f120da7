//! Calorie counting: the elves' snack lists, one number per line, with an
//! empty line after each elf, and the elves ranked by their totals.

use crate::text::{lines_view, parse_u32, parse_u32_spec, to_chars};
use itertools::Itertools;
use vstd::prelude::*;

verus! {

/// The sum of `s`.
pub open spec fn total(s: Seq<u32>) -> nat
    decreases s.len(),
{
    if s.len() == 0 {
        0
    } else {
        total(s.drop_last()) + (s.last() as nat)
    }
}

/// Every elf's total fits in `u32`.
pub open spec fn all_fit(elves: Seq<Seq<u32>>) -> bool {
    forall|k: int| 0 <= k < elves.len() ==> #[trigger] total(elves[k]) <= u32::MAX
}

/// The total of each elf.
pub open spec fn totals_of(elves: Seq<Seq<u32>>) -> Seq<u32> {
    Seq::new(elves.len(), |k: int| total(elves[k]) as u32)
}

/// The elves read so far, and the items of the elf being read. An empty
/// line closes the current elf; any other line must be a number.
pub open spec fn read_elves(lines: Seq<Seq<char>>) -> Option<(Seq<Seq<u32>>, Seq<u32>)>
    decreases lines.len(),
{
    if lines.len() == 0 {
        Some((seq![], seq![]))
    } else {
        match read_elves(lines.drop_last()) {
            None => None,
            Some((done, cur)) => if lines.last().len() == 0 {
                Some((done.push(cur), seq![]))
            } else {
                match parse_u32_spec(lines.last()) {
                    Some(v) => Some((done, cur.push(v))),
                    None => None,
                }
            },
        }
    }
}

proof fn lemma_read_elves_prefix(lines: Seq<Seq<char>>, k: int)
    requires
        0 <= k <= lines.len(),
        read_elves(lines.subrange(0, k)) is None,
    ensures
        read_elves(lines) is None,
    decreases lines.len(),
{
    if k < lines.len() {
        assert(lines.drop_last().subrange(0, k) =~= lines.subrange(0, k));
        lemma_read_elves_prefix(lines.drop_last(), k);
    } else {
        assert(lines.subrange(0, k) =~= lines);
    }
}

fn sum_items(items: &Vec<u32>) -> (r: Option<u32>)
    ensures
        total(items@) <= u32::MAX ==> r == Some(total(items@) as u32),
        total(items@) > u32::MAX ==> r is None,
{
    let mut acc: u32 = 0;
    let mut i: usize = 0;
    while i < items.len()
        invariant
            i <= items@.len(),
            acc == total(items@.subrange(0, i as int)),
        decreases items@.len() - i,
    {
        proof {
            assert(items@.subrange(0, i + 1).drop_last() =~= items@.subrange(0, i as int));
        }
        match acc.checked_add(items[i]) {
            Some(v) => {
                acc = v;
            },
            None => {
                proof {
                    lemma_total_prefix(items@, i + 1);
                }
                return None;
            },
        }
        i += 1;
    }
    assert(items@.subrange(0, i as int) =~= items@);
    Some(acc)
}

proof fn lemma_total_prefix(s: Seq<u32>, k: int)
    requires
        0 <= k <= s.len(),
    ensures
        total(s.subrange(0, k)) <= total(s),
    decreases s.len(),
{
    if k < s.len() {
        assert(s.drop_last().subrange(0, k) =~= s.subrange(0, k));
        lemma_total_prefix(s.drop_last(), k);
    } else {
        assert(s.subrange(0, k) =~= s);
    }
}

/// The total of every elf closed by an empty line, in order; `None` where
/// a line is neither empty nor a number, or a total does not fit in `u32`.
pub fn elf_totals(lines: Vec<&str>) -> (r: Option<Vec<u32>>)
    ensures
        read_elves(lines_view(lines@)) is None ==> r is None,
        read_elves(lines_view(lines@)) matches Some((elves, _)) ==> if all_fit(elves) {
            r is Some && r.unwrap()@ == totals_of(elves)
        } else {
            r is None
        },
{
    let ghost lv = lines_view(lines@);
    let mut totals: Vec<u32> = Vec::new();
    let mut cur: Vec<u32> = Vec::new();
    let ghost mut done: Seq<Seq<u32>> = seq![];
    let mut overflow = false;
    let mut i: usize = 0;
    while i < lines.len()
        invariant
            i <= lines@.len(),
            lv == lines_view(lines@),
            read_elves(lv.subrange(0, i as int)) == Some((done, cur@)),
            !overflow ==> totals@.len() == done.len() && forall|k: int|
                0 <= k < done.len() ==> #[trigger] totals@[k] == total(done[k]),
            !overflow ==> forall|k: int| 0 <= k < done.len() ==> #[trigger] total(done[k]) <= u32::MAX,
            overflow ==> exists|k: int| 0 <= k < done.len() && #[trigger] total(done[k]) > u32::MAX,
        decreases lines@.len() - i,
    {
        let line = to_chars(lines[i]);
        proof {
            assert(lv.subrange(0, i + 1).drop_last() =~= lv.subrange(0, i as int));
            assert(lv.subrange(0, i + 1).last() == line@);
        }
        if line.len() == 0 {
            let ghost old_done = done;
            let ghost was_overflow = overflow;
            match sum_items(&cur) {
                Some(t) => {
                    totals.push(t);
                },
                None => {
                    overflow = true;
                },
            }
            proof {
                done = done.push(cur@);
                assert(done[old_done.len() as int] == cur@);
                assert(forall|k: int| 0 <= k < old_done.len() ==> #[trigger] done[k] == old_done[k]);
                if was_overflow {
                    let w = choose|k: int| 0 <= k < old_done.len() && #[trigger] total(old_done[k]) > u32::MAX;
                    assert(total(done[w]) > u32::MAX);
                } else if overflow {
                    assert(total(done[old_done.len() as int]) > u32::MAX);
                }
            }
            cur = Vec::new();
        } else {
            match parse_u32(&line) {
                Some(v) => {
                    cur.push(v);
                },
                None => {
                    proof {
                        lemma_read_elves_prefix(lv, i + 1);
                    }
                    return None;
                },
            }
        }
        i += 1;
    }
    assert(lv.subrange(0, i as int) =~= lv);
    if overflow {
        let ghost w = choose|k: int| 0 <= k < done.len() && #[trigger] total(done[k]) > u32::MAX;
        assert(!(forall|k: int| 0 <= k < done.len() ==> #[trigger] total(done[k]) <= u32::MAX)) by {
            assert(total(done[w]) > u32::MAX);
        }
        None
    } else {
        assert(read_elves(lines_view(lines@)) == Some((done, cur@)));
        assert(!(exists|k: int| 0 <= k < done.len() && #[trigger] total(done[k]) > u32::MAX));
        assert(totals@ =~= totals_of(done));
        Some(totals)
    }
}

/// Relies on `itertools::Itertools::sorted`: the same values, in ascending
/// order.
#[verifier::external_body]
fn sorted_ascending(v: Vec<u32>) -> (r: Vec<u32>)
    ensures
        r@.to_multiset() == v@.to_multiset(),
        forall|i: int, j: int| 0 <= i < j < r@.len() ==> #[trigger] r@[i] <= #[trigger] r@[j],
{
    v.into_iter().sorted().collect()
}

/// The totals from largest to smallest.
pub fn calorie_ranking(totals: Vec<u32>) -> (r: Vec<u32>)
    ensures
        r@.to_multiset() == totals@.to_multiset(),
        forall|i: int, j: int| 0 <= i < j < r@.len() ==> #[trigger] r@[i] >= #[trigger] r@[j],
{
    let s = sorted_ascending(totals);
    let n = s.len();
    let mut r: Vec<u32> = Vec::new();
    let mut i: usize = n;
    while i > 0
        invariant
            i <= n,
            n == s@.len(),
            r@.len() == n - i,
            forall|j: int| 0 <= j < r@.len() ==> #[trigger] r@[j] == s@[n - 1 - j],
        decreases i,
    {
        r.push(s[i - 1]);
        i -= 1;
    }
    proof {
        if n > 0 {
            assert(r@ =~= s@.reverse());
        } else {
            assert(r@ =~= s@.reverse());
        }
        s@.lemma_reverse_to_multiset();
    }
    assert forall|a: int, b: int| 0 <= a < b < r@.len() implies #[trigger] r@[a] >= #[trigger] r@[b] by {
        assert(s@[n - 1 - b] <= s@[n - 1 - a]);
    }
    r
}

/// The sum of the first `k` values (all of them where there are fewer);
/// `None` where it does not fit in `u32`.
pub fn top_calories(ranking: &Vec<u32>, k: usize) -> (r: Option<u32>)
    ensures
        ({
            let n = if k < ranking@.len() { k as int } else { ranking@.len() as int };
            &&& total(ranking@.subrange(0, n)) <= u32::MAX ==> r == Some(total(ranking@.subrange(0, n)) as u32)
            &&& total(ranking@.subrange(0, n)) > u32::MAX ==> r is None
        }),
{
    let n = if k < ranking.len() { k } else { ranking.len() };
    let mut acc: u32 = 0;
    let mut i: usize = 0;
    while i < n
        invariant
            i <= n,
            n <= ranking@.len(),
            n == (if k < ranking@.len() { k as int } else { ranking@.len() as int }),
            acc == total(ranking@.subrange(0, i as int)),
        decreases n - i,
    {
        proof {
            assert(ranking@.subrange(0, i + 1).drop_last() =~= ranking@.subrange(0, i as int));
        }
        match acc.checked_add(ranking[i]) {
            Some(v) => {
                acc = v;
            },
            None => {
                proof {
                    lemma_total_prefix(ranking@.subrange(0, n as int), i + 1);
                    assert(ranking@.subrange(0, n as int).subrange(0, i + 1) =~= ranking@.subrange(0, i + 1));
                }
                return None;
            },
        }
        i += 1;
    }
    Some(acc)
}

} // verus!
