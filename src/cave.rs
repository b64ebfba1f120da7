//! Reading a cave scan: rock paths given as points `x,y` joined by `" -> "`,
//! drawn into a grid of cells (0 air, 1 rock).

use crate::sand::grid_view;
use crate::text::{lines_view, parse_usize, parse_usize_spec, split, split_on, to_chars};
use itertools::Itertools;
use vstd::prelude::*;

verus! {

/// The point that `"x,y"` names: the first two comma-separated pieces as
/// numbers.
pub open spec fn coordinate_spec(s: Seq<char>) -> Option<(usize, usize)> {
    let ps = split_on(s, ","@);
    match parse_usize_spec(ps[0]) {
        None => None,
        Some(x) => if ps.len() >= 2 {
            match parse_usize_spec(ps[1]) {
                Some(y) => Some((x, y)),
                None => None,
            }
        } else {
            None
        },
    }
}

pub open spec fn min_of(a: usize, b: usize) -> usize {
    if a < b {
        a
    } else {
        b
    }
}

pub open spec fn max_of(a: usize, b: usize) -> usize {
    if a > b {
        a
    } else {
        b
    }
}

fn to_tuple_chars(coordinate: &Vec<char>, max_x: &mut usize, min_x: &mut usize, max_y: &mut usize) -> (r: Option<(usize, usize)>)
    ensures
        r == coordinate_spec(coordinate@),
        r matches Some((x, y)) ==> *final(max_x) == max_of(*old(max_x), x) && *final(min_x) == min_of(*old(min_x), x)
            && *final(max_y) == max_of(*old(max_y), y),
        r is None ==> *final(max_x) == *old(max_x) && *final(min_x) == *old(min_x) && *final(max_y) == *old(max_y),
{
    let comma = to_chars(",");
    proof {
        reveal_strlit(",");
    }
    let pieces = split(coordinate, &comma);
    let x = match parse_usize(&pieces[0]) {
        Some(x) => x,
        None => {
            return None;
        },
    };
    if pieces.len() < 2 {
        return None;
    }
    let y = match parse_usize(&pieces[1]) {
        Some(y) => y,
        None => {
            return None;
        },
    };
    if x < *min_x {
        *min_x = x;
    }
    if x > *max_x {
        *max_x = x;
    }
    if y > *max_y {
        *max_y = y;
    }
    Some((x, y))
}

/// Reads the point `"x,y"` and widens the bounds seen so far to take it in;
/// `None`, with the bounds kept, where `coordinate` names no point.
pub fn to_tuple(coordinate: &str, max_x: &mut usize, min_x: &mut usize, max_y: &mut usize) -> (r: Option<(usize, usize)>)
    ensures
        r == coordinate_spec(coordinate@),
        r matches Some((x, y)) ==> *final(max_x) == max_of(*old(max_x), x) && *final(min_x) == min_of(*old(min_x), x)
            && *final(max_y) == max_of(*old(max_y), y),
        r is None ==> *final(max_x) == *old(max_x) && *final(min_x) == *old(min_x) && *final(max_y) == *old(max_y),
{
    to_tuple_chars(&to_chars(coordinate), max_x, min_x, max_y)
}


/// The points of a line of the scan.
pub open spec fn parse_points(ps: Seq<Seq<char>>) -> Option<Seq<(usize, usize)>>
    decreases ps.len(),
{
    if ps.len() == 0 {
        Some(seq![])
    } else {
        match (parse_points(ps.drop_last()), coordinate_spec(ps.last())) {
            (Some(a), Some(p)) => Some(a.push(p)),
            _ => None,
        }
    }
}

/// The rock paths of the scan, one per line.
pub open spec fn read_paths(rows: Seq<Seq<char>>) -> Option<Seq<Seq<(usize, usize)>>>
    decreases rows.len(),
{
    if rows.len() == 0 {
        Some(seq![])
    } else {
        match (read_paths(rows.drop_last()), parse_points(split_on(rows.last(), " -> "@))) {
            (Some(a), Some(p)) => Some(a.push(p)),
            _ => None,
        }
    }
}

/// Bounds `(max_x, min_x, max_y)` widened to take in point `p`.
pub open spec fn widen(b: (usize, usize, usize), p: (usize, usize)) -> (usize, usize, usize) {
    (max_of(b.0, p.0), min_of(b.1, p.0), max_of(b.2, p.1))
}

pub open spec fn widen_all(b: (usize, usize, usize), pts: Seq<(usize, usize)>) -> (usize, usize, usize)
    decreases pts.len(),
{
    if pts.len() == 0 {
        b
    } else {
        widen(widen_all(b, pts.drop_last()), pts.last())
    }
}

/// `(max_x, min_x, max_y)` over every point, from `(0, usize::MAX, 0)`.
pub open spec fn extent(paths: Seq<Seq<(usize, usize)>>) -> (usize, usize, usize)
    decreases paths.len(),
{
    if paths.len() == 0 {
        (0, usize::MAX, 0)
    } else {
        widen_all(extent(paths.drop_last()), paths.last())
    }
}

/// Each point of `path` with the next one.
pub open spec fn windows(path: Seq<(usize, usize)>) -> Seq<((usize, usize), (usize, usize))> {
    Seq::new(if path.len() == 0 { 0 } else { (path.len() - 1) as nat }, |i: int| (path[i], path[i + 1]))
}

/// The segments of all paths, in order.
pub open spec fn all_segments(paths: Seq<Seq<(usize, usize)>>) -> Seq<((usize, usize), (usize, usize))>
    decreases paths.len(),
{
    if paths.len() == 0 {
        seq![]
    } else {
        all_segments(paths.drop_last()) + windows(paths.last())
    }
}

/// The segment covers cell `(x, y)`: a vertical one where its ends share `x`,
/// else a horizontal one in the row of its first end.
pub open spec fn on_segment(seg: ((usize, usize), (usize, usize)), x: int, y: int) -> bool {
    let ((x1, y1), (x2, y2)) = seg;
    if x1 == x2 {
        x == x1 && min_of(y1, y2) <= y <= max_of(y1, y2)
    } else {
        y == y1 && min_of(x1, x2) <= x <= max_of(x1, x2)
    }
}

pub open spec fn rock_at(segs: Seq<((usize, usize), (usize, usize))>, x: int, y: int) -> bool {
    exists|k: int| 0 <= k < segs.len() && #[trigger] on_segment(segs[k], x, y)
}

/// The grid's first column, 100 left of the leftmost point, where that and
/// the grid's size and the entry column 500 all fit the grid's arithmetic.
pub open spec fn left_edge(b: (usize, usize, usize)) -> Option<usize> {
    let (max_x, min_x, max_y) = b;
    if min_x < 100 || max_x < min_x - 100 || max_x - (min_x - 100) + 201 > usize::MAX || max_y
        >= usize::MAX || min_x - 100 > 500 {
        None
    } else {
        Some((min_x - 100) as usize)
    }
}

/// Relies on `itertools::Itertools::tuple_windows`: each point of the path
/// paired with the next one, in order.
#[verifier::external_body]
fn segments(path: &Vec<(usize, usize)>) -> (r: Vec<((usize, usize), (usize, usize))>)
    ensures
        r@ == windows(path@),
{
    path.iter().copied().tuple_windows().collect()
}

proof fn lemma_read_paths_prefix(rows: Seq<Seq<char>>, k: int)
    requires
        0 <= k <= rows.len(),
        read_paths(rows.subrange(0, k)) is None,
    ensures
        read_paths(rows) is None,
    decreases rows.len(),
{
    if k < rows.len() {
        assert(rows.drop_last().subrange(0, k) =~= rows.subrange(0, k));
        lemma_read_paths_prefix(rows.drop_last(), k);
    } else {
        assert(rows.subrange(0, k) =~= rows);
    }
}

proof fn lemma_parse_points_prefix(ps: Seq<Seq<char>>, k: int)
    requires
        0 <= k <= ps.len(),
        parse_points(ps.subrange(0, k)) is None,
    ensures
        parse_points(ps) is None,
    decreases ps.len(),
{
    if k < ps.len() {
        assert(ps.drop_last().subrange(0, k) =~= ps.subrange(0, k));
        lemma_parse_points_prefix(ps.drop_last(), k);
    } else {
        assert(ps.subrange(0, k) =~= ps);
    }
}

/// Reads the rock paths of every line.
#[verifier::loop_isolation(false)]
fn read_all_paths(rows: &Vec<&str>, max_x: &mut usize, min_x: &mut usize, max_y: &mut usize) -> (r: Option<
    Vec<Vec<(usize, usize)>>,
>)
    requires
        *old(max_x) == 0,
        *old(min_x) == usize::MAX,
        *old(max_y) == 0,
    ensures
        r is Some <==> read_paths(lines_view(rows@)) is Some,
        r matches Some(ps) ==> {
            let paths = read_paths(lines_view(rows@)).unwrap();
            &&& ps@.len() == paths.len()
            &&& forall|i: int| 0 <= i < ps@.len() ==> #[trigger] ps@[i]@ == paths[i]
            &&& (*final(max_x), *final(min_x), *final(max_y)) == extent(paths)
        },
{
    let ghost rv = lines_view(rows@);
    let arrow = to_chars(" -> ");
    proof {
        reveal_strlit(" -> ");
    }
    let mut paths: Vec<Vec<(usize, usize)>> = Vec::new();
    let ghost mut pv: Seq<Seq<(usize, usize)>> = seq![];
    let mut i: usize = 0;
    while i < rows.len()
        invariant
            i <= rows@.len(),
            arrow@ == " -> "@,
            read_paths(rv.subrange(0, i as int)) == Some(pv),
            paths@.len() == pv.len(),
            forall|j: int| 0 <= j < paths@.len() ==> #[trigger] paths@[j]@ == pv[j],
            (*max_x, *min_x, *max_y) == extent(pv),
        decreases rows@.len() - i,
    {
        let line = to_chars(rows[i]);
        let pieces = split(&line, &arrow);
        let ghost ps = split_on(line@, " -> "@);
        proof {
            assert(rv.subrange(0, i + 1).drop_last() =~= rv.subrange(0, i as int));
            assert(rv.subrange(0, i + 1).last() == line@);
        }
        let mut pts: Vec<(usize, usize)> = Vec::new();
        let mut k: usize = 0;
        while k < pieces.len()
            invariant
                k <= pieces@.len(),
                pieces@.len() == ps.len(),
                forall|j: int| 0 <= j < pieces@.len() ==> #[trigger] pieces@[j]@ == ps[j],
                parse_points(ps.subrange(0, k as int)) == Some(pts@),
                (*max_x, *min_x, *max_y) == widen_all(extent(pv), pts@),
            decreases pieces@.len() - k,
        {
            proof {
                assert(ps.subrange(0, k + 1).drop_last() =~= ps.subrange(0, k as int));
                assert(ps.subrange(0, k + 1).last() == pieces@[k as int]@);
            }
            match to_tuple_chars(&pieces[k], max_x, min_x, max_y) {
                Some(p) => {
                    assert(pts@.push(p).drop_last() =~= pts@);
                    pts.push(p);
                },
                None => {
                    proof {
                        lemma_parse_points_prefix(ps, k + 1);
                        lemma_read_paths_prefix(rv, i + 1);
                    }
                    return None;
                },
            }
            k += 1;
        }
        proof {
            assert(ps.subrange(0, k as int) =~= ps);
            assert(pv.push(pts@).drop_last() =~= pv);
            pv = pv.push(pts@);
        }
        paths.push(pts);
        i += 1;
    }
    assert(rv.subrange(0, i as int) =~= rv);
    Some(paths)
}


/// Point `p` lies within bounds `b` = `(max_x, min_x, max_y)`.
pub open spec fn within(p: (usize, usize), b: (usize, usize, usize)) -> bool {
    b.1 <= p.0 <= b.0 && p.1 <= b.2
}

/// Bounds `a` take in bounds `b`.
pub open spec fn encloses(a: (usize, usize, usize), b: (usize, usize, usize)) -> bool {
    a.0 >= b.0 && a.1 <= b.1 && a.2 >= b.2
}

proof fn lemma_widen_all(b: (usize, usize, usize), pts: Seq<(usize, usize)>)
    ensures
        encloses(widen_all(b, pts), b),
        forall|j: int| 0 <= j < pts.len() ==> within(#[trigger] pts[j], widen_all(b, pts)),
    decreases pts.len(),
{
    if pts.len() > 0 {
        lemma_widen_all(b, pts.drop_last());
        assert forall|j: int| 0 <= j < pts.len() implies within(#[trigger] pts[j], widen_all(b, pts)) by {
            if j < pts.len() - 1 {
                assert(pts[j] == pts.drop_last()[j]);
            }
        }
    }
}

proof fn lemma_segments_within(paths: Seq<Seq<(usize, usize)>>)
    ensures
        forall|k: int|
            0 <= k < all_segments(paths).len() ==> within(#[trigger] all_segments(paths)[k].0, extent(paths))
                && within(all_segments(paths)[k].1, extent(paths)),
    decreases paths.len(),
{
    if paths.len() > 0 {
        let rest = paths.drop_last();
        lemma_segments_within(rest);
        lemma_widen_all(extent(rest), paths.last());
        let a = all_segments(rest);
        let w = windows(paths.last());
        assert forall|k: int| 0 <= k < all_segments(paths).len() implies within(
            #[trigger] all_segments(paths)[k].0,
            extent(paths),
        ) && within(all_segments(paths)[k].1, extent(paths)) by {
            if k < a.len() {
                assert(all_segments(paths)[k] == a[k]);
            } else {
                let i = k - a.len();
                assert(all_segments(paths)[k] == w[i]);
                assert(paths.last()[i] == w[i].0);
                assert(paths.last()[i + 1] == w[i].1);
            }
        }
    }
}

proof fn lemma_rock_at_extend(segs: Seq<((usize, usize), (usize, usize))>, k: int, x: int, y: int)
    requires
        0 <= k < segs.len(),
    ensures
        rock_at(segs.subrange(0, k + 1), x, y) == (rock_at(segs.subrange(0, k), x, y) || on_segment(
            segs[k],
            x,
            y,
        )),
{
    let a = segs.subrange(0, k);
    let b = segs.subrange(0, k + 1);
    if rock_at(b, x, y) {
        let j = choose|j: int| 0 <= j < b.len() && #[trigger] on_segment(b[j], x, y);
        if j < k {
            assert(on_segment(a[j], x, y));
        }
    }
    if rock_at(a, x, y) {
        let j = choose|j: int| 0 <= j < a.len() && #[trigger] on_segment(a[j], x, y);
        assert(on_segment(b[j], x, y));
    }
    if on_segment(segs[k], x, y) {
        assert(on_segment(b[k], x, y));
    }
}

/// The grid `g`, with first column `mn`, shows rock exactly where `segs`
/// pass and has `h` rows of `w` cells.
pub open spec fn drawn(g: Seq<Seq<u8>>, segs: Seq<((usize, usize), (usize, usize))>, mn: int, h: int, w: int) -> bool {
    &&& g.len() == h
    &&& forall|y: int| 0 <= y < h ==> #[trigger] g[y].len() == w
    &&& forall|y: int, i: int|
        0 <= y < h && 0 <= i < w ==> #[trigger] g[y][i] == if rock_at(segs, i + mn, y) {
            1u8
        } else {
            0u8
        }
}

/// Reads the scan into a grid of `max_y + 1` rows, from 100 columns left of
/// the leftmost point to 100 right of the rightmost one, with rock drawn
/// along every path, and returns it with the entry column 500 counted from
/// the grid's first column. `None` where a point is malformed, or where
/// the grid's bounds do not fit (see `left_edge`).
#[verifier::loop_isolation(false)]
pub fn load_initial_scan(rows: Vec<&str>) -> (r: Option<(usize, Vec<Vec<u8>>)>)
    ensures
        match read_paths(lines_view(rows@)) {
            None => r is None,
            Some(paths) => match left_edge(extent(paths)) {
                None => r is None,
                Some(mn) => r matches Some((ix, scan)) && ix == 500 - mn && drawn(
                    grid_view(scan@),
                    all_segments(paths),
                    mn as int,
                    extent(paths).2 + 1,
                    extent(paths).0 - mn + 201,
                ),
            },
        },
{
    let mut max_x: usize = 0;
    let mut min_x: usize = usize::MAX;
    let mut max_y: usize = 0;
    let paths = match read_all_paths(&rows, &mut max_x, &mut min_x, &mut max_y) {
        Some(p) => p,
        None => {
            return None;
        },
    };
    let ghost pv = read_paths(lines_view(rows@)).unwrap();
    if min_x < 100 {
        return None;
    }
    let mn = min_x - 100;
    if max_x < mn || max_x - mn > usize::MAX - 201 || max_y == usize::MAX || mn > 500 {
        return None;
    }
    let w = max_x - mn + 201;
    let h = max_y + 1;
    let mut segs: Vec<((usize, usize), (usize, usize))> = Vec::new();
    let mut p: usize = 0;
    while p < paths.len()
        invariant
            p <= paths@.len(),
            paths@.len() == pv.len(),
            forall|j: int| 0 <= j < paths@.len() ==> #[trigger] paths@[j]@ == pv[j],
            segs@ == all_segments(pv.subrange(0, p as int)),
        decreases paths@.len() - p,
    {
        let ws = segments(&paths[p]);
        let mut k: usize = 0;
        let ghost before = segs@;
        while k < ws.len()
            invariant
                k <= ws@.len(),
                segs@ == before + ws@.subrange(0, k as int),
            decreases ws@.len() - k,
        {
            segs.push(ws[k]);
            assert(segs@ =~= before + ws@.subrange(0, k + 1));
            k += 1;
        }
        proof {
            assert(pv.subrange(0, p + 1).drop_last() =~= pv.subrange(0, p as int));
            assert(ws@.subrange(0, k as int) =~= ws@);
        }
        p += 1;
    }
    assert(pv.subrange(0, p as int) =~= pv);
    let ghost all = segs@;
    proof {
        lemma_segments_within(pv);
    }
    let mut scan: Vec<Vec<u8>> = Vec::new();
    let mut y: usize = 0;
    while y < h
        invariant
            y <= h,
            scan@.len() == y,
            forall|j: int| 0 <= j < y ==> #[trigger] scan@[j]@ == Seq::new(w as nat, |i: int| 0u8),
        decreases h - y,
    {
        let row: Vec<u8> = vec![0; w];
        assert(row@ =~= Seq::new(w as nat, |i: int| 0u8));
        scan.push(row);
        y += 1;
    }
    assert(drawn(grid_view(scan@), all.subrange(0, 0), mn as int, h as int, w as int));
    let mut k: usize = 0;
    while k < segs.len()
        invariant
            k <= all.len(),
            segs@ == all,
            drawn(grid_view(scan@), all.subrange(0, k as int), mn as int, h as int, w as int),
        decreases all.len() - k,
    {
        let ((x1, y1), (x2, y2)) = segs[k];
        assert(within(all[k as int].0, extent(pv)) && within(all[k as int].1, extent(pv)));
        let ghost prev = all.subrange(0, k as int);
        if x1 == x2 {
            let lo = if y1 < y2 { y1 } else { y2 };
            let hi = if y1 < y2 { y2 } else { y1 };
            let mut j = lo;
            while j <= hi
                invariant
                    lo <= j <= hi + 1,
                    hi < h,
                    mn <= x1 <= max_x,
                    w == max_x - mn + 201,
                    grid_view(scan@).len() == h,
                    forall|yy: int| 0 <= yy < h ==> #[trigger] grid_view(scan@)[yy].len() == w,
                    forall|yy: int, i: int|
                        0 <= yy < h && 0 <= i < w ==> #[trigger] grid_view(scan@)[yy][i] == if rock_at(
                            prev,
                            i + mn,
                            yy,
                        ) || (i + mn == x1 && lo <= yy < j) {
                            1u8
                        } else {
                            0u8
                        },
                decreases hi + 1 - j,
            {
                let ghost g = grid_view(scan@);
                assert(g[j as int].len() == w);
                scan[j].set(x1 - mn, 1);
                assert(grid_view(scan@)[j as int] == g[j as int].update((x1 - mn) as int, 1u8));
                assert forall|yy: int| 0 <= yy < h && yy != j implies #[trigger] grid_view(scan@)[yy] == g[yy] by {}
                j += 1;
            }
        } else {
            let lo = if x1 < x2 { x1 } else { x2 };
            let hi = if x1 < x2 { x2 } else { x1 };
            let mut i = lo;
            loop
                invariant
                    lo <= i <= hi,
                    hi <= max_x,
                    mn <= lo,
                    w == max_x - mn + 201,
                    y1 < h,
                    grid_view(scan@).len() == h,
                    forall|yy: int| 0 <= yy < h ==> #[trigger] grid_view(scan@)[yy].len() == w,
                    forall|yy: int, c: int|
                        0 <= yy < h && 0 <= c < w ==> #[trigger] grid_view(scan@)[yy][c] == if rock_at(
                            prev,
                            c + mn,
                            yy,
                        ) || (yy == y1 && lo <= c + mn < i) {
                            1u8
                        } else {
                            0u8
                        },
                decreases hi - i,
            {
                let ghost g = grid_view(scan@);
                assert(g[y1 as int].len() == w);
                scan[y1].set(i - mn, 1);
                assert(grid_view(scan@)[y1 as int] == g[y1 as int].update((i - mn) as int, 1u8));
                assert forall|yy: int| 0 <= yy < h && yy != y1 implies #[trigger] grid_view(scan@)[yy] == g[yy] by {}
                assert(forall|yy: int, c: int|
                    0 <= yy < h && 0 <= c < w ==> #[trigger] grid_view(scan@)[yy][c] == if rock_at(
                        prev,
                        c + mn,
                        yy,
                    ) || (yy == y1 && lo <= c + mn <= i) {
                        1u8
                    } else {
                        0u8
                    });
                if i == hi {
                    break;
                }
                i += 1;
            }
        }
        assert forall|yy: int, c: int| 0 <= yy < h && 0 <= c < w implies #[trigger] grid_view(scan@)[yy][c]
            == if rock_at(all.subrange(0, k + 1), c + mn, yy) {
            1u8
        } else {
            0u8
        } by {
            lemma_rock_at_extend(all, k as int, c + mn, yy);
        }
        k += 1;
    }
    assert(all.subrange(0, k as int) =~= all);
    Some((500 - mn, scan))
}

} // verus!
