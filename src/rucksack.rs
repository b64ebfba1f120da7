//! Rucksack priorities: the item type that both compartments of a rucksack
//! hold, and its priority.

use crate::text::{lines_view, to_chars};
use vstd::prelude::*;
use vstd::set::Set;

verus! {

/// The priority of an item type: `a` to `z` are 1 to 26, `A` to `Z` are 27
/// to 52.
pub open spec fn priority(c: char) -> int {
    if (c as u32) > 96 {
        (c as u32) - 96
    } else {
        (c as u32) - 38
    }
}

/// The priority of item type `c`.
pub fn ctoi(c: char) -> (r: usize)
    requires
        (c as u32) >= 38,
    ensures
        r == priority(c),
        'a' <= c <= 'z' ==> 1 <= r <= 26,
        'A' <= c <= 'Z' ==> 27 <= r <= 52,
{
    let ascii_code: u32 = c as u32;
    if ascii_code > 96 {
        ascii_code as usize - 96
    } else {
        ascii_code as usize - 38
    }
}

/// The first item of `b`, from position `j` on, that `a` also holds.
pub open spec fn first_shared_from(a: Seq<char>, b: Seq<char>, j: int) -> Option<char>
    decreases b.len() - j,
{
    if j < 0 || j >= b.len() {
        None
    } else if a.contains(b[j]) {
        Some(b[j])
    } else {
        first_shared_from(a, b, j + 1)
    }
}

/// The first item of the second compartment (the second half of the row)
/// that the first compartment also holds.
pub open spec fn shared_item(row: Seq<char>) -> Option<char> {
    let mid = row.len() / 2;
    first_shared_from(row.subrange(0, mid as int), row.subrange(mid as int, row.len() as int), 0)
}

fn holds(a: &Vec<char>, lo: usize, hi: usize, c: char) -> (r: bool)
    requires
        lo <= hi <= a@.len(),
    ensures
        r == a@.subrange(lo as int, hi as int).contains(c),
{
    let mut i: usize = lo;
    while i < hi
        invariant
            lo <= i <= hi,
            hi <= a@.len(),
            forall|k: int| lo <= k < i ==> a@[k] != c,
        decreases hi - i,
    {
        if a[i] == c {
            assert(a@.subrange(lo as int, hi as int)[i - lo] == c);
            return true;
        }
        i += 1;
    }
    assert forall|k: int| 0 <= k < hi - lo implies a@.subrange(lo as int, hi as int)[k] != c by {
        assert(a@.subrange(lo as int, hi as int)[k] == a@[lo + k]);
    }
    false
}

/// The priority of the item type that both compartments hold, or 0 where
/// they share none.
pub fn evaulate_round_one(row: &str) -> (r: usize)
    requires
        shared_item(row@) matches Some(c) ==> (c as u32) >= 38,
    ensures
        r == match shared_item(row@) {
            Some(c) => priority(c),
            None => 0,
        },
{
    let s = to_chars(row);
    let n = s.len();
    let mid = n / 2;
    let ghost a = s@.subrange(0, mid as int);
    let ghost b = s@.subrange(mid as int, n as int);
    assert(shared_item(row@) == first_shared_from(a, b, 0));
    let mut j: usize = mid;
    while j < n
        invariant
            n == s@.len(),
            mid <= j <= n,
            s@ == row@,
            a == s@.subrange(0, mid as int),
            b == s@.subrange(mid as int, n as int),
            shared_item(row@) == first_shared_from(a, b, j - mid),
            shared_item(row@) matches Some(c) ==> (c as u32) >= 38,
        decreases n - j,
    {
        let c = s[j];
        assert(b[j - mid] == c);
        if holds(&s, 0, mid, c) {
            assert(first_shared_from(a, b, j - mid) == Some(c));
            return ctoi(c);
        }
        j += 1;
    }
    0
}


/// One rucksack of a group search: the item types still shared (all of
/// the row's where none were), and the badge once a single type is left,
/// after which the search starts over.
pub open spec fn badge_step(state: Set<char>, row: Seq<char>) -> (Set<char>, Option<char>) {
    let s = if state.len() == 0 {
        row.to_set()
    } else {
        state.intersect(row.to_set())
    };
    if s.len() == 1 {
        (Set::empty(), Some(s.choose()))
    } else {
        (s, None)
    }
}

/// The search state after `rows`, and the badges found, in order.
pub open spec fn badges(rows: Seq<Seq<char>>) -> (Set<char>, Seq<char>)
    decreases rows.len(),
{
    if rows.len() == 0 {
        (Set::empty(), seq![])
    } else {
        let (st, found) = badges(rows.drop_last());
        let (st2, b) = badge_step(st, rows.last());
        (
            st2,
            match b {
                Some(c) => found.push(c),
                None => found,
            },
        )
    }
}

/// The distinct characters of `s`.
fn distinct(s: &Vec<char>) -> (r: Vec<char>)
    ensures
        r@.no_duplicates(),
        r@.to_set() == s@.to_set(),
{
    let mut r: Vec<char> = Vec::new();
    let mut i: usize = 0;
    while i < s.len()
        invariant
            i <= s@.len(),
            r@.no_duplicates(),
            r@.to_set() == s@.subrange(0, i as int).to_set(),
        decreases s@.len() - i,
    {
        let c = s[i];
        let ghost before = r@;
        proof {
            assert(s@.subrange(0, i + 1) =~= s@.subrange(0, i as int).push(c));
        }
        let mut found = false;
        let mut k: usize = 0;
        while k < r.len()
            invariant
                k <= r@.len(),
                found <==> exists|j: int| 0 <= j < k && r@[j] == c,
            decreases r@.len() - k,
        {
            if r[k] == c {
                found = true;
            }
            k += 1;
        }
        proof {
            broadcast use vstd::set::group_set_axioms, vstd::seq_lib::group_seq_properties;
        }
        if !found {
            r.push(c);
            proof {
                broadcast use vstd::set::group_set_axioms, vstd::seq_lib::group_seq_properties;
                assert(r@.to_set() =~= before.to_set().insert(c));
            }
        } else {
            proof {
                broadcast use vstd::set::group_set_axioms, vstd::seq_lib::group_seq_properties;
                assert(before.to_set().contains(c));
                assert(before.to_set() =~= before.to_set().insert(c));
            }
        }
        proof {
            broadcast use vstd::set::group_set_axioms, vstd::seq_lib::group_seq_properties;
            assert(s@.subrange(0, i + 1).to_set() =~= s@.subrange(0, i as int).to_set().insert(c));
        }
        i += 1;
    }
    assert(s@.subrange(0, i as int) =~= s@);
    r
}

/// The items of `a` that `b` also holds.
fn keep_shared(a: &Vec<char>, b: &Vec<char>) -> (r: Vec<char>)
    requires
        a@.no_duplicates(),
    ensures
        r@.no_duplicates(),
        r@.to_set() == a@.to_set().intersect(b@.to_set()),
{
    let mut r: Vec<char> = Vec::new();
    let mut i: usize = 0;
    while i < a.len()
        invariant
            i <= a@.len(),
            a@.no_duplicates(),
            r@.no_duplicates(),
            r@.to_set() == a@.subrange(0, i as int).to_set().intersect(b@.to_set()),
        decreases a@.len() - i,
    {
        let c = a[i];
        let ghost before = r@;
        let mut inb = false;
        let mut k: usize = 0;
        while k < b.len()
            invariant
                k <= b@.len(),
                inb <==> exists|j: int| 0 <= j < k && b@[j] == c,
            decreases b@.len() - k,
        {
            if b[k] == c {
                inb = true;
            }
            k += 1;
        }
        proof {
            broadcast use vstd::set::group_set_axioms, vstd::seq_lib::group_seq_properties;
            assert(a@.subrange(0, i + 1) =~= a@.subrange(0, i as int).push(c));
            assert(a@.subrange(0, i + 1).to_set() =~= a@.subrange(0, i as int).to_set().insert(c));
            assert(inb == b@.to_set().contains(c));
        }
        if inb {
            proof {
                broadcast use vstd::set::group_set_axioms, vstd::seq_lib::group_seq_properties;
                assert forall|j: int| 0 <= j < before.len() implies before[j] != c by {
                    assert(before.to_set().contains(before[j]));
                    assert(a@.subrange(0, i as int).to_set().contains(before[j]));
                    let m = choose|m: int| 0 <= m < i && #[trigger] a@.subrange(0, i as int)[m] == before[j];
                    assert(a@[m] != a@[i as int]);
                }
            }
            r.push(c);
            proof {
                broadcast use vstd::set::group_set_axioms, vstd::seq_lib::group_seq_properties;
                assert(r@.to_set() =~= before.to_set().insert(c));
                assert(r@.to_set() =~= a@.subrange(0, i + 1).to_set().intersect(b@.to_set()));
            }
        } else {
            proof {
                broadcast use vstd::set::group_set_axioms;
                assert(r@.to_set() =~= a@.subrange(0, i + 1).to_set().intersect(b@.to_set()));
            }
        }
        i += 1;
    }
    assert(a@.subrange(0, i as int) =~= a@);
    r
}

/// The badges of the groups, in order: item types found by intersecting
/// rucksacks until a single type is left.
pub fn find_badges(lines: Vec<&str>) -> (r: Vec<char>)
    ensures
        r@ == badges(lines_view(lines@)).1,
{
    let ghost lv = lines_view(lines@);
    let mut state: Vec<char> = Vec::new();
    let mut found: Vec<char> = Vec::new();
    let mut i: usize = 0;
    proof {
        broadcast use vstd::set::group_set_axioms, vstd::seq_lib::group_seq_properties;
        assert(state@.to_set() =~= Set::<char>::empty());
        assert(lv.subrange(0, 0) =~= Seq::<Seq<char>>::empty());
    }
    while i < lines.len()
        invariant
            i <= lines@.len(),
            lv == lines_view(lines@),
            state@.no_duplicates(),
            badges(lv.subrange(0, i as int)) == (state@.to_set(), found@),
        decreases lines@.len() - i,
    {
        let row = distinct(&to_chars(lines[i]));
        let ghost st = state@.to_set();
        proof {
            assert(lv.subrange(0, i + 1).drop_last() =~= lv.subrange(0, i as int));
            assert(lv.subrange(0, i + 1).last() == lines@[i as int]@);
            state@.unique_seq_to_set();
        }
        if state.len() == 0 {
            state = row;
        } else {
            state = keep_shared(&state, &row);
        }
        proof {
            state@.unique_seq_to_set();
        }
        if state.len() == 1 {
            let c = state[0];
            proof {
                broadcast use vstd::set::group_set_axioms, vstd::seq_lib::group_seq_properties;
                let s = state@.to_set();
                assert(s =~= Set::empty().insert(c));
                assert(s.contains(s.choose()));
            }
            found.push(c);
            state = Vec::new();
            proof {
                broadcast use vstd::set::group_set_axioms, vstd::seq_lib::group_seq_properties;
                assert(state@.to_set() =~= Set::<char>::empty());
            }
        }
        i += 1;
    }
    assert(lv.subrange(0, i as int) =~= lv);
    found
}

} // verus!
