//! A grid of tree heights: which trees can be seen from outside the grid,
//! and how far each tree can see.

use crate::text::to_chars;
use vstd::prelude::*;

verus! {

/// The height at row `r`, column `c`.
pub open spec fn height(t: Seq<Vec<u8>>, r: int, c: int) -> u8 {
    t[r]@[c]
}

/// `a` and `b` have the same number of rows, and rows of the same lengths.
pub open spec fn same_shape<A, B>(a: Seq<Vec<A>>, b: Seq<Vec<B>>) -> bool {
    &&& a.len() == b.len()
    &&& forall|r: int| 0 <= r < a.len() ==> #[trigger] a[r]@.len() == b[r]@.len()
}

/// No row is longer than the grid has rows.
pub open spec fn rows_fit_columns(t: Seq<Vec<u8>>) -> bool {
    forall|r: int| 0 <= r < t.len() ==> #[trigger] t[r]@.len() <= t.len()
}

/// The tree at `c` is taller than zero and than every tree left of it.
pub open spec fn clear_left(row: Seq<u8>, c: int) -> bool {
    row[c] > 0 && forall|k: int| 0 <= k < c ==> #[trigger] row[k] < row[c]
}

/// The tree at `c` is taller than zero and than every tree right of it.
pub open spec fn clear_right(row: Seq<u8>, c: int) -> bool {
    row[c] > 0 && forall|k: int| c < k < row.len() ==> #[trigger] row[k] < row[c]
}

/// The tree at `(r, c)` is taller than zero and than every tree above it.
pub open spec fn clear_top(t: Seq<Vec<u8>>, r: int, c: int) -> bool {
    height(t, r, c) > 0 && forall|k: int|
        0 <= k < r && c < t[k]@.len() ==> #[trigger] height(t, k, c) < height(t, r, c)
}

/// The tree at `(r, c)` is taller than zero and than every tree below it.
pub open spec fn clear_bottom(t: Seq<Vec<u8>>, r: int, c: int) -> bool {
    height(t, r, c) > 0 && forall|k: int|
        r < k < t.len() && c < t[k]@.len() ==> #[trigger] height(t, k, c) < height(t, r, c)
}

/// The tree is on the grid's edge: first or last row, first or last column.
pub open spec fn on_edge(t: Seq<Vec<u8>>, r: int, c: int) -> bool {
    r == 0 || c == 0 || r == t.len() - 1 || c == t[r]@.len() - 1
}

/// Adds to `visible` the trees that can be seen from the left.
pub fn find_visible_from_left(trees: &Vec<Vec<u8>>, visible: &Vec<Vec<bool>>) -> (out: Vec<Vec<bool>>)
    requires
        same_shape(trees@, visible@),
    ensures
        same_shape(out@, trees@),
        forall|r: int, c: int|
            0 <= r < trees@.len() && 0 <= c < trees@[r]@.len() ==> #[trigger] out@[r]@[c] == (visible@[r]@[c]
                || clear_left(trees@[r]@, c)),
{
    let mut out: Vec<Vec<bool>> = Vec::new();
    let mut r: usize = 0;
    while r < trees.len()
        invariant
            r <= trees@.len(),
            same_shape(trees@, visible@),
            out@.len() == r,
            forall|i: int| 0 <= i < r ==> #[trigger] out@[i]@.len() == trees@[i]@.len(),
            forall|i: int, c: int|
                0 <= i < r && 0 <= c < trees@[i]@.len() ==> #[trigger] out@[i]@[c] == (visible@[i]@[c]
                    || clear_left(trees@[i]@, c)),
        decreases trees@.len() - r,
    {
        let row = &trees[r];
        let vis = &visible[r];
        assert(vis@.len() == row@.len());
        let mut max: u8 = 0;
        let mut new_row: Vec<bool> = Vec::new();
        let mut c: usize = 0;
        while c < row.len()
            invariant
                c <= row@.len(),
                vis@.len() == row@.len(),
                new_row@.len() == c,
                forall|k: int| 0 <= k < c ==> #[trigger] row@[k] <= max,
                max == 0 || exists|k: int| 0 <= k < c && #[trigger] row@[k] == max,
                forall|j: int| 0 <= j < c ==> #[trigger] new_row@[j] == (vis@[j] || clear_left(row@, j)),
            decreases row@.len() - c,
        {
            let t = row[c];
            if t > max {
                assert(clear_left(row@, c as int));
                max = t;
                new_row.push(true);
            } else {
                assert(!clear_left(row@, c as int));
                new_row.push(vis[c]);
            }
            c += 1;
        }
        out.push(new_row);
        r += 1;
    }
    out
}

/// Adds to `visible` the trees that can be seen from the right.
pub fn find_visible_from_right(trees: &Vec<Vec<u8>>, visible: &Vec<Vec<bool>>) -> (out: Vec<Vec<bool>>)
    requires
        same_shape(trees@, visible@),
    ensures
        same_shape(out@, trees@),
        forall|r: int, c: int|
            0 <= r < trees@.len() && 0 <= c < trees@[r]@.len() ==> #[trigger] out@[r]@[c] == (visible@[r]@[c]
                || clear_right(trees@[r]@, c)),
{
    let mut out: Vec<Vec<bool>> = Vec::new();
    let mut r: usize = 0;
    while r < trees.len()
        invariant
            r <= trees@.len(),
            same_shape(trees@, visible@),
            out@.len() == r,
            forall|i: int| 0 <= i < r ==> #[trigger] out@[i]@.len() == trees@[i]@.len(),
            forall|i: int, c: int|
                0 <= i < r && 0 <= c < trees@[i]@.len() ==> #[trigger] out@[i]@[c] == (visible@[i]@[c]
                    || clear_right(trees@[i]@, c)),
        decreases trees@.len() - r,
    {
        let row = &trees[r];
        let vis = &visible[r];
        assert(vis@.len() == row@.len());
        let n = row.len();
        let mut new_row: Vec<bool> = Vec::new();
        let mut k: usize = 0;
        while k < n
            invariant
                k <= n,
                new_row@.len() == k,
            decreases n - k,
        {
            new_row.push(false);
            k += 1;
        }
        let mut max: u8 = 0;
        let mut c: usize = n;
        while c > 0
            invariant
                c <= n,
                n == row@.len(),
                vis@.len() == n,
                new_row@.len() == n,
                forall|k: int| c <= k < n ==> #[trigger] row@[k] <= max,
                max == 0 || exists|k: int| c <= k < n && #[trigger] row@[k] == max,
                forall|j: int| c <= j < n ==> #[trigger] new_row@[j] == (vis@[j] || clear_right(row@, j)),
            decreases c,
        {
            c -= 1;
            let t = row[c];
            if t > max {
                assert(clear_right(row@, c as int));
                max = t;
                new_row.set(c, true);
            } else {
                assert(!clear_right(row@, c as int));
                new_row.set(c, vis[c]);
            }
        }
        out.push(new_row);
        r += 1;
    }
    out
}


/// `m` bounds column `j` of rows `lo..hi`, and is 0 or one of those heights.
pub open spec fn column_max(t: Seq<Vec<u8>>, m: u8, j: int, lo: int, hi: int) -> bool {
    &&& forall|k: int| lo <= k < hi && j < t[k]@.len() ==> #[trigger] height(t, k, j) <= m
    &&& (m == 0 || exists|k: int| lo <= k < hi && j < t[k]@.len() && #[trigger] height(t, k, j) == m)
}

/// Adds to `visible` the trees that can be seen from the top.
#[verifier::loop_isolation(false)]
pub fn find_visible_from_top(trees: &Vec<Vec<u8>>, visible: &Vec<Vec<bool>>) -> (out: Vec<Vec<bool>>)
    requires
        same_shape(trees@, visible@),
        rows_fit_columns(trees@),
    ensures
        same_shape(out@, trees@),
        forall|r: int, c: int|
            0 <= r < trees@.len() && 0 <= c < trees@[r]@.len() ==> #[trigger] out@[r]@[c] == (visible@[r]@[c]
                || clear_top(trees@, r, c)),
{
    let n = trees.len();
    let mut maxes: Vec<u8> = vec![0; n];
    let mut out: Vec<Vec<bool>> = Vec::new();
    let mut r: usize = 0;
    while r < n
        invariant
            r <= n,
            maxes@.len() == n,
            out@.len() == r,
            forall|j: int| 0 <= j < n ==> #[trigger] column_max(trees@, maxes@[j], j, 0, r as int),
            forall|i: int| 0 <= i < r ==> #[trigger] out@[i]@.len() == trees@[i]@.len(),
            forall|i: int, c: int|
                0 <= i < r && 0 <= c < trees@[i]@.len() ==> #[trigger] out@[i]@[c] == (visible@[i]@[c]
                    || clear_top(trees@, i, c)),
        decreases n - r,
    {
        let row = &trees[r];
        let vis = &visible[r];
        assert(vis@.len() == row@.len());
        assert(row@.len() <= n);
        let mut new_row: Vec<bool> = Vec::new();
        let mut c: usize = 0;
        while c < row.len()
            invariant
                c <= row@.len(),
                row@ == trees@[r as int]@,
                maxes@.len() == n,
                new_row@.len() == c,
                forall|j: int| 0 <= j < c ==> #[trigger] column_max(trees@, maxes@[j], j, 0, r + 1),
                forall|j: int| c <= j < n ==> #[trigger] column_max(trees@, maxes@[j], j, 0, r as int),
                forall|j: int| 0 <= j < c ==> #[trigger] new_row@[j] == (vis@[j] || clear_top(trees@, r as int, j)),
            decreases row@.len() - c,
        {
            let t = row[c];
            let ghost m = maxes@[c as int];
            assert(column_max(trees@, m, c as int, 0, r as int));
            if t > maxes[c] {
                assert(clear_top(trees@, r as int, c as int));
                maxes.set(c, t);
                new_row.push(true);
            } else {
                assert(!clear_top(trees@, r as int, c as int));
                new_row.push(vis[c]);
            }
            assert(column_max(trees@, maxes@[c as int], c as int, 0, r + 1));
            c += 1;
        }
        assert forall|j: int| 0 <= j < n implies #[trigger] column_max(trees@, maxes@[j], j, 0, r + 1) by {
            if j >= c {
                assert(column_max(trees@, maxes@[j], j, 0, r as int));
            }
        }
        out.push(new_row);
        r += 1;
    }
    out
}

/// Adds to `visible` the trees that can be seen from the bottom.
#[verifier::loop_isolation(false)]
pub fn find_visible_from_bottom(trees: &Vec<Vec<u8>>, visible: &Vec<Vec<bool>>) -> (out: Vec<Vec<bool>>)
    requires
        same_shape(trees@, visible@),
        rows_fit_columns(trees@),
    ensures
        same_shape(out@, trees@),
        forall|r: int, c: int|
            0 <= r < trees@.len() && 0 <= c < trees@[r]@.len() ==> #[trigger] out@[r]@[c] == (visible@[r]@[c]
                || clear_bottom(trees@, r, c)),
{
    let n = trees.len();
    let mut maxes: Vec<u8> = vec![0; n];
    let mut out: Vec<Vec<bool>> = Vec::new();
    let mut k: usize = 0;
    while k < n
        invariant
            k <= n,
            out@.len() == k,
        decreases n - k,
    {
        out.push(Vec::new());
        k += 1;
    }
    let mut r: usize = n;
    while r > 0
        invariant
            r <= n,
            maxes@.len() == n,
            out@.len() == n,
            forall|j: int| 0 <= j < n ==> #[trigger] column_max(trees@, maxes@[j], j, r as int, n as int),
            forall|i: int| r <= i < n ==> #[trigger] out@[i]@.len() == trees@[i]@.len(),
            forall|i: int, c: int|
                r <= i < n && 0 <= c < trees@[i]@.len() ==> #[trigger] out@[i]@[c] == (visible@[i]@[c]
                    || clear_bottom(trees@, i, c)),
        decreases r,
    {
        r -= 1;
        let row = &trees[r];
        let vis = &visible[r];
        assert(vis@.len() == row@.len());
        assert(row@.len() <= n);
        let mut new_row: Vec<bool> = Vec::new();
        let mut c: usize = 0;
        while c < row.len()
            invariant
                c <= row@.len(),
                row@ == trees@[r as int]@,
                maxes@.len() == n,
                new_row@.len() == c,
                forall|j: int| 0 <= j < c ==> #[trigger] column_max(trees@, maxes@[j], j, r as int, n as int),
                forall|j: int| c <= j < n ==> #[trigger] column_max(trees@, maxes@[j], j, r + 1, n as int),
                forall|j: int| 0 <= j < c ==> #[trigger] new_row@[j] == (vis@[j] || clear_bottom(trees@, r as int, j)),
            decreases row@.len() - c,
        {
            let t = row[c];
            let ghost m = maxes@[c as int];
            assert(column_max(trees@, m, c as int, r + 1, n as int));
            if t > maxes[c] {
                assert(clear_bottom(trees@, r as int, c as int));
                maxes.set(c, t);
                new_row.push(true);
            } else {
                assert(!clear_bottom(trees@, r as int, c as int));
                new_row.push(vis[c]);
            }
            assert(column_max(trees@, maxes@[c as int], c as int, r as int, n as int));
            c += 1;
        }
        assert forall|j: int| 0 <= j < n implies #[trigger] column_max(trees@, maxes@[j], j, r as int, n as int) by {
            if j >= c {
                assert(column_max(trees@, maxes@[j], j, r + 1, n as int));
            }
        }
        out.set(r, new_row);
    }
    out
}


/// A tree can be seen from outside the grid: it stands on the edge, or is
/// taller than every tree between it and the edge in some direction.
pub open spec fn is_visible(t: Seq<Vec<u8>>, r: int, c: int) -> bool {
    ||| on_edge(t, r, c)
    ||| clear_left(t[r]@, c)
    ||| clear_right(t[r]@, c)
    ||| clear_top(t, r, c)
    ||| clear_bottom(t, r, c)
}

/// Which trees can be seen from outside the grid.
pub fn find_visible(trees: &Vec<Vec<u8>>) -> (out: Vec<Vec<bool>>)
    requires
        rows_fit_columns(trees@),
    ensures
        same_shape(out@, trees@),
        forall|r: int, c: int|
            0 <= r < trees@.len() && 0 <= c < trees@[r]@.len() ==> #[trigger] out@[r]@[c] == is_visible(
                trees@,
                r,
                c,
            ),
{
    let n = trees.len();
    let mut edges: Vec<Vec<bool>> = Vec::new();
    let mut r: usize = 0;
    while r < n
        invariant
            r <= n,
            n == trees@.len(),
            edges@.len() == r,
            forall|i: int| 0 <= i < r ==> #[trigger] edges@[i]@.len() == trees@[i]@.len(),
            forall|i: int, c: int|
                0 <= i < r && 0 <= c < trees@[i]@.len() ==> #[trigger] edges@[i]@[c] == on_edge(trees@, i, c),
        decreases n - r,
    {
        let len = trees[r].len();
        let mut row: Vec<bool> = Vec::new();
        let mut c: usize = 0;
        while c < len
            invariant
                c <= len,
                r < n,
                n == trees@.len(),
                len == trees@[r as int]@.len(),
                row@.len() == c,
                forall|j: int| 0 <= j < c ==> #[trigger] row@[j] == on_edge(trees@, r as int, j),
            decreases len - c,
        {
            row.push(r == 0 || c == 0 || r == n - 1 || c == len - 1);
            c += 1;
        }
        edges.push(row);
        r += 1;
    }
    let visible = find_visible_from_left(trees, &edges);
    let visible = find_visible_from_right(trees, &visible);
    let visible = find_visible_from_top(trees, &visible);
    find_visible_from_bottom(trees, &visible)
}


/// Every height is a single digit.
pub open spec fn digit_heights(t: Seq<Vec<u8>>) -> bool {
    forall|r: int, c: int| 0 <= r < t.len() && 0 <= c < t[r]@.len() ==> #[trigger] height(t, r, c) <= 9
}

/// The nearest column before `c` whose tree is at least `h` tall, or 0.
pub open spec fn blocker_left(row: Seq<u8>, h: int, c: int) -> int
    decreases c,
{
    if c <= 0 {
        0
    } else if row[c - 1] >= h {
        c - 1
    } else {
        blocker_left(row, h, c - 1)
    }
}

/// The nearest column after `c` whose tree is at least `h` tall, or the last
/// column.
pub open spec fn blocker_right(row: Seq<u8>, h: int, c: int) -> int
    decreases row.len() - c,
{
    if c + 1 >= row.len() {
        row.len() - 1
    } else if row[c + 1] >= h {
        c + 1
    } else {
        blocker_right(row, h, c + 1)
    }
}

/// The nearest row above `r` whose tree in column `c` is at least `h` tall,
/// or 0. Rows too short to reach column `c` are passed over.
pub open spec fn blocker_top(t: Seq<Vec<u8>>, h: int, c: int, r: int) -> int
    decreases r,
{
    if r <= 0 {
        0
    } else if c < t[r - 1]@.len() && height(t, r - 1, c) >= h {
        r - 1
    } else {
        blocker_top(t, h, c, r - 1)
    }
}

/// The nearest row below `r` whose tree in column `c` is at least `h` tall,
/// or the last row.
pub open spec fn blocker_bottom(t: Seq<Vec<u8>>, h: int, c: int, r: int) -> int
    decreases t.len() - r,
{
    if r + 1 >= t.len() {
        t.len() - 1
    } else if c < t[r + 1]@.len() && height(t, r + 1, c) >= h {
        r + 1
    } else {
        blocker_bottom(t, h, c, r + 1)
    }
}

/// How many trees the tree at `c` sees to its left.
pub open spec fn view_left(row: Seq<u8>, c: int) -> int {
    c - blocker_left(row, row[c] as int, c)
}

/// How many trees the tree at `c` sees to its right.
pub open spec fn view_right(row: Seq<u8>, c: int) -> int {
    blocker_right(row, row[c] as int, c) - c
}

/// How many trees the tree at `(r, c)` sees upwards.
pub open spec fn view_top(t: Seq<Vec<u8>>, r: int, c: int) -> int {
    r - blocker_top(t, height(t, r, c) as int, c, r)
}

/// How many trees the tree at `(r, c)` sees downwards.
pub open spec fn view_bottom(t: Seq<Vec<u8>>, r: int, c: int) -> int {
    blocker_bottom(t, height(t, r, c) as int, c, r) - r
}

proof fn lemma_blocker_left_step(row: Seq<u8>, h: int, c: int)
    requires
        0 <= c < row.len(),
    ensures
        blocker_left(row, h, c + 1) == if row[c] >= h { c } else { blocker_left(row, h, c) },
        0 <= blocker_left(row, h, c) <= c,
        c > 0 ==> blocker_left(row, h, c) < c,
    decreases c,
{
    if c > 0 {
        lemma_blocker_left_step(row, h, c - 1);
    }
}

/// Multiplies each score by how far its tree sees to the left.
#[verifier::loop_isolation(false)]
pub fn calc_score_from_left(trees: &Vec<Vec<u8>>, scores: &Vec<Vec<u32>>) -> (out: Vec<Vec<u32>>)
    requires
        same_shape(trees@, scores@),
        digit_heights(trees@),
        forall|r: int, c: int|
            0 <= r < trees@.len() && 0 <= c < trees@[r]@.len() ==> #[trigger] scores@[r]@[c] * view_left(
                trees@[r]@,
                c,
            ) <= u32::MAX,
    ensures
        same_shape(out@, trees@),
        forall|r: int, c: int|
            0 <= r < trees@.len() && 0 <= c < trees@[r]@.len() ==> #[trigger] out@[r]@[c] == scores@[r]@[c]
                * view_left(trees@[r]@, c),
{
    let mut out: Vec<Vec<u32>> = Vec::new();
    let mut r: usize = 0;
    while r < trees.len()
        invariant
            r <= trees@.len(),
            out@.len() == r,
            forall|i: int| 0 <= i < r ==> #[trigger] out@[i]@.len() == trees@[i]@.len(),
            forall|i: int, c: int|
                0 <= i < r && 0 <= c < trees@[i]@.len() ==> #[trigger] out@[i]@[c] == scores@[i]@[c]
                    * view_left(trees@[i]@, c),
        decreases trees@.len() - r,
    {
        let row = &trees[r];
        let row_scores = &scores[r];
        assert(row_scores@.len() == row@.len());
        let mut pos: Vec<usize> = vec![0; 10];
        let mut new_row: Vec<u32> = Vec::new();
        let mut c: usize = 0;
        while c < row.len()
            invariant
                c <= row@.len(),
                row@ == trees@[r as int]@,
                pos@.len() == 10,
                new_row@.len() == c,
                forall|h: int| 0 <= h < 10 ==> #[trigger] pos@[h] == blocker_left(row@, h, c as int),
                forall|j: int| 0 <= j < c ==> #[trigger] new_row@[j] == row_scores@[j] * view_left(row@, j),
            decreases row@.len() - c,
        {
            let t = row[c];
            assert(height(trees@, r as int, c as int) <= 9);
            let old_idx = pos[t as usize];
            proof {
                lemma_blocker_left_step(row@, t as int, c as int);
            }
            let ghost before = pos@;
            if c > old_idx {
                let mut i: usize = 0;
                while i <= t as usize
                    invariant
                        t <= 9,
                        i <= t + 1,
                        pos@.len() == 10,
                        forall|h: int| 0 <= h < i ==> #[trigger] pos@[h] == c,
                        forall|h: int| i <= h < 10 ==> #[trigger] pos@[h] == before[h],
                    decreases t + 1 - i,
                {
                    pos.set(i, c);
                    i += 1;
                }
            }
            assert forall|h: int| 0 <= h < 10 implies #[trigger] pos@[h] == blocker_left(row@, h, c + 1) by {
                lemma_blocker_left_step(row@, h, c as int);
                if c > 0 {
                    lemma_blocker_left_step(row@, h, c - 1);
                }
            }
            let s = row_scores[c];
            let d = c - old_idx;
            assert(d == view_left(row@, c as int));
            assert(s * d <= u32::MAX);
            let v: u32 = if s == 0 {
                assert(s as int * d as int == 0) by (nonlinear_arith)
                    requires
                        s == 0,
                ;
                0
            } else {
                assert(d <= s * d) by (nonlinear_arith)
                    requires
                        s >= 1,
                ;
                let d32 = d as u32;
                assert(d32 == d);
                s * d32
            };
            new_row.push(v);
            c += 1;
        }
        out.push(new_row);
        r += 1;
    }
    out
}


proof fn lemma_blocker_right_bounds(row: Seq<u8>, h: int, c: int)
    requires
        0 <= c < row.len(),
    ensures
        c <= blocker_right(row, h, c) <= row.len() - 1,
        c < row.len() - 1 ==> c < blocker_right(row, h, c),
    decreases row.len() - c,
{
    if c + 1 < row.len() {
        lemma_blocker_right_bounds(row, h, c + 1);
    }
}

/// Multiplies each score by how far its tree sees to the right.
#[verifier::loop_isolation(false)]
pub fn calc_score_from_right(trees: &Vec<Vec<u8>>, scores: &Vec<Vec<u32>>) -> (out: Vec<Vec<u32>>)
    requires
        same_shape(trees@, scores@),
        digit_heights(trees@),
        forall|r: int| 0 <= r < trees@.len() ==> #[trigger] trees@[r]@.len() > 0,
        forall|r: int, c: int|
            0 <= r < trees@.len() && 0 <= c < trees@[r]@.len() ==> #[trigger] scores@[r]@[c] * view_right(
                trees@[r]@,
                c,
            ) <= u32::MAX,
    ensures
        same_shape(out@, trees@),
        forall|r: int, c: int|
            0 <= r < trees@.len() && 0 <= c < trees@[r]@.len() ==> #[trigger] out@[r]@[c] == scores@[r]@[c]
                * view_right(trees@[r]@, c),
{
    let mut out: Vec<Vec<u32>> = Vec::new();
    let mut r: usize = 0;
    while r < trees.len()
        invariant
            r <= trees@.len(),
            out@.len() == r,
            forall|i: int| 0 <= i < r ==> #[trigger] out@[i]@.len() == trees@[i]@.len(),
            forall|i: int, c: int|
                0 <= i < r && 0 <= c < trees@[i]@.len() ==> #[trigger] out@[i]@[c] == scores@[i]@[c]
                    * view_right(trees@[i]@, c),
        decreases trees@.len() - r,
    {
        let row = &trees[r];
        let row_scores = &scores[r];
        assert(row_scores@.len() == row@.len());
        let n = row.len();
        assert(n > 0);
        let mut new_row: Vec<u32> = Vec::new();
        let mut k: usize = 0;
        while k < n
            invariant
                k <= n,
                new_row@.len() == k,
            decreases n - k,
        {
            new_row.push(0);
            k += 1;
        }
        let mut pos: Vec<usize> = vec![n - 1; 10];
        let mut c: usize = n;
        while c > 0
            invariant
                c <= n,
                n == row@.len(),
                row@ == trees@[r as int]@,
                pos@.len() == 10,
                new_row@.len() == n,
                c > 0 ==> forall|h: int| 0 <= h < 10 ==> #[trigger] pos@[h] == blocker_right(row@, h, c - 1),
                forall|j: int| c <= j < n ==> #[trigger] new_row@[j] == row_scores@[j] * view_right(row@, j),
            decreases c,
        {
            c -= 1;
            let t = row[c];
            assert(height(trees@, r as int, c as int) <= 9);
            let old_idx = pos[t as usize];
            proof {
                lemma_blocker_right_bounds(row@, t as int, c as int);
            }
            let ghost before = pos@;
            if c < old_idx {
                let mut i: usize = 0;
                while i <= t as usize
                    invariant
                        t <= 9,
                        i <= t + 1,
                        pos@.len() == 10,
                        forall|h: int| 0 <= h < i ==> #[trigger] pos@[h] == c,
                        forall|h: int| i <= h < 10 ==> #[trigger] pos@[h] == before[h],
                    decreases t + 1 - i,
                {
                    pos.set(i, c);
                    i += 1;
                }
            }
            assert forall|h: int| c > 0 && 0 <= h < 10 implies #[trigger] pos@[h] == blocker_right(row@, h, c - 1) by {
                lemma_blocker_right_bounds(row@, h, c as int);
            }
            let s = row_scores[c];
            let d = old_idx - c;
            assert(d == view_right(row@, c as int));
            assert(s * d <= u32::MAX);
            let v: u32 = if s == 0 {
                assert(s as int * d as int == 0) by (nonlinear_arith)
                    requires
                        s == 0,
                ;
                0
            } else {
                assert(d <= s * d) by (nonlinear_arith)
                    requires
                        s >= 1,
                ;
                let d32 = d as u32;
                assert(d32 == d);
                s * d32
            };
            new_row.set(c, v);
        }
        out.push(new_row);
        r += 1;
    }
    out
}


proof fn lemma_blocker_top_bounds(t: Seq<Vec<u8>>, h: int, c: int, r: int)
    requires
        0 <= r,
    ensures
        0 <= blocker_top(t, h, c, r) <= r,
        r > 0 ==> blocker_top(t, h, c, r) < r,
    decreases r,
{
    if r > 0 {
        lemma_blocker_top_bounds(t, h, c, r - 1);
    }
}

/// No row is longer than the first.
pub open spec fn rows_fit_first(t: Seq<Vec<u8>>) -> bool {
    &&& t.len() > 0
    &&& forall|r: int| 0 <= r < t.len() ==> #[trigger] t[r]@.len() <= t[0]@.len()
}

/// Multiplies each score by how far its tree sees upwards.
#[verifier::loop_isolation(false)]
pub fn calc_score_from_top(trees: &Vec<Vec<u8>>, scores: &Vec<Vec<u32>>) -> (out: Vec<Vec<u32>>)
    requires
        same_shape(trees@, scores@),
        digit_heights(trees@),
        rows_fit_first(trees@),
        forall|r: int, c: int|
            0 <= r < trees@.len() && 0 <= c < trees@[r]@.len() ==> #[trigger] scores@[r]@[c] * view_top(
                trees@,
                r,
                c,
            ) <= u32::MAX,
    ensures
        same_shape(out@, trees@),
        forall|r: int, c: int|
            0 <= r < trees@.len() && 0 <= c < trees@[r]@.len() ==> #[trigger] out@[r]@[c] == scores@[r]@[c]
                * view_top(trees@, r, c),
{
    let w = trees[0].len();
    let mut pos: Vec<Vec<usize>> = Vec::new();
    let mut k: usize = 0;
    while k < w
        invariant
            k <= w,
            pos@.len() == k,
            forall|j: int, h: int| 0 <= j < k && 0 <= h < 10 ==> #[trigger] pos@[j]@[h] == 0,
            forall|j: int| 0 <= j < k ==> #[trigger] pos@[j]@.len() == 10,
        decreases w - k,
    {
        pos.push(vec![0; 10]);
        k += 1;
    }
    let mut out: Vec<Vec<u32>> = Vec::new();
    let mut r: usize = 0;
    while r < trees.len()
        invariant
            r <= trees@.len(),
            w == trees@[0]@.len(),
            out@.len() == r,
            pos@.len() == w,
            forall|j: int| 0 <= j < w ==> #[trigger] pos@[j]@.len() == 10,
            forall|j: int, h: int|
                0 <= j < w && 0 <= h < 10 ==> #[trigger] pos@[j]@[h] == blocker_top(trees@, h, j, r as int),
            forall|i: int| 0 <= i < r ==> #[trigger] out@[i]@.len() == trees@[i]@.len(),
            forall|i: int, c: int|
                0 <= i < r && 0 <= c < trees@[i]@.len() ==> #[trigger] out@[i]@[c] == scores@[i]@[c]
                    * view_top(trees@, i, c),
        decreases trees@.len() - r,
    {
        let row = &trees[r];
        let row_scores = &scores[r];
        assert(row_scores@.len() == row@.len());
        assert(row@.len() <= w);
        let mut new_row: Vec<u32> = Vec::new();
        let mut c: usize = 0;
        while c < row.len()
            invariant
                c <= row@.len(),
                row@ == trees@[r as int]@,
                pos@.len() == w,
                forall|j: int| 0 <= j < w ==> #[trigger] pos@[j]@.len() == 10,
                forall|j: int, h: int|
                    0 <= j < c && 0 <= h < 10 ==> #[trigger] pos@[j]@[h] == blocker_top(trees@, h, j, r + 1),
                forall|j: int, h: int|
                    c <= j < w && 0 <= h < 10 ==> #[trigger] pos@[j]@[h] == blocker_top(trees@, h, j, r as int),
                new_row@.len() == c,
                forall|j: int| 0 <= j < c ==> #[trigger] new_row@[j] == row_scores@[j] * view_top(trees@, r as int, j),
            decreases row@.len() - c,
        {
            let t = row[c];
            assert(height(trees@, r as int, c as int) <= 9);
            let old_idx = pos[c][t as usize];
            proof {
                lemma_blocker_top_bounds(trees@, t as int, c as int, r as int);
            }
            let ghost before = pos@;
            if r > old_idx {
                let mut i: usize = 0;
                while i <= t as usize
                    invariant
                        t <= 9,
                        i <= t + 1,
                        c < w,
                        pos@.len() == w,
                        forall|j: int| 0 <= j < w ==> #[trigger] pos@[j]@.len() == 10,
                        forall|j: int| 0 <= j < w && j != c ==> #[trigger] pos@[j] == before[j],
                        forall|h: int| 0 <= h < i ==> #[trigger] pos@[c as int]@[h] == r,
                        forall|h: int| i <= h < 10 ==> #[trigger] pos@[c as int]@[h] == before[c as int]@[h],
                    decreases t + 1 - i,
                {
                    pos[c].set(i, r);
                    i += 1;
                }
            }
            assert forall|j: int, h: int| 0 <= j < c + 1 && 0 <= h < 10 implies #[trigger] pos@[j]@[h]
                == blocker_top(trees@, h, j, r + 1) by {
                if j == c {
                    lemma_blocker_top_bounds(trees@, h, j, r as int);
                } else {
                    assert(pos@[j] == before[j]);
                }
            }
            assert forall|j: int, h: int| c + 1 <= j < w && 0 <= h < 10 implies #[trigger] pos@[j]@[h]
                == blocker_top(trees@, h, j, r as int) by {
                assert(pos@[j] == before[j]);
            }
            let s = row_scores[c];
            let d = r - old_idx;
            assert(d == view_top(trees@, r as int, c as int));
            assert(s * d <= u32::MAX);
            let v: u32 = if s == 0 {
                assert(s as int * d as int == 0) by (nonlinear_arith)
                    requires
                        s == 0,
                ;
                0
            } else {
                assert(d <= s * d) by (nonlinear_arith)
                    requires
                        s >= 1,
                ;
                let d32 = d as u32;
                assert(d32 == d);
                s * d32
            };
            new_row.push(v);
            c += 1;
        }
        assert forall|j: int, h: int| 0 <= j < w && 0 <= h < 10 implies #[trigger] pos@[j]@[h]
            == blocker_top(trees@, h, j, r + 1) by {
            if j >= c {
                assert(pos@[j]@[h] == blocker_top(trees@, h, j, r as int));
            }
        }
        out.push(new_row);
        r += 1;
    }
    out
}

proof fn lemma_blocker_bottom_bounds(t: Seq<Vec<u8>>, h: int, c: int, r: int)
    requires
        0 <= r < t.len(),
    ensures
        r <= blocker_bottom(t, h, c, r) <= t.len() - 1,
        r < t.len() - 1 ==> r < blocker_bottom(t, h, c, r),
    decreases t.len() - r,
{
    if r + 1 < t.len() {
        lemma_blocker_bottom_bounds(t, h, c, r + 1);
    }
}

/// Multiplies each score by how far its tree sees downwards.
#[verifier::loop_isolation(false)]
pub fn calc_score_from_bottom(trees: &Vec<Vec<u8>>, scores: &Vec<Vec<u32>>) -> (out: Vec<Vec<u32>>)
    requires
        same_shape(trees@, scores@),
        digit_heights(trees@),
        rows_fit_first(trees@),
        forall|r: int, c: int|
            0 <= r < trees@.len() && 0 <= c < trees@[r]@.len() ==> #[trigger] scores@[r]@[c] * view_bottom(
                trees@,
                r,
                c,
            ) <= u32::MAX,
    ensures
        same_shape(out@, trees@),
        forall|r: int, c: int|
            0 <= r < trees@.len() && 0 <= c < trees@[r]@.len() ==> #[trigger] out@[r]@[c] == scores@[r]@[c]
                * view_bottom(trees@, r, c),
{
    let w = trees[0].len();
    let mut pos: Vec<Vec<usize>> = Vec::new();
    let mut k: usize = 0;
    while k < w
        invariant
            k <= w,
            pos@.len() == k,
            forall|j: int, h: int| 0 <= j < k && 0 <= h < 10 ==> #[trigger] pos@[j]@[h] == trees@.len() - 1,
            forall|j: int| 0 <= j < k ==> #[trigger] pos@[j]@.len() == 10,
        decreases w - k,
    {
        pos.push(vec![trees.len() - 1; 10]);
        k += 1;
    }
    let n = trees.len();
    let mut out: Vec<Vec<u32>> = Vec::new();
    let mut k: usize = 0;
    while k < n
        invariant
            k <= n,
            out@.len() == k,
        decreases n - k,
    {
        out.push(Vec::new());
        k += 1;
    }
    let mut r: usize = n;
    while r > 0
        invariant
            r <= n,
            n == trees@.len(),
            w == trees@[0]@.len(),
            out@.len() == n,
            pos@.len() == w,
            forall|j: int| 0 <= j < w ==> #[trigger] pos@[j]@.len() == 10,
            forall|j: int, h: int|
                0 <= j < w && 0 <= h < 10 ==> #[trigger] pos@[j]@[h] == blocker_bottom(trees@, h, j, r - 1),
            forall|i: int| r <= i < n ==> #[trigger] out@[i]@.len() == trees@[i]@.len(),
            forall|i: int, c: int|
                r <= i < n && 0 <= c < trees@[i]@.len() ==> #[trigger] out@[i]@[c] == scores@[i]@[c]
                    * view_bottom(trees@, i, c),
        decreases r,
    {
        r -= 1;
        let row = &trees[r];
        let row_scores = &scores[r];
        assert(row_scores@.len() == row@.len());
        assert(row@.len() <= w);
        let mut new_row: Vec<u32> = Vec::new();
        let mut c: usize = 0;
        while c < row.len()
            invariant
                c <= row@.len(),
                row@ == trees@[r as int]@,
                pos@.len() == w,
                forall|j: int| 0 <= j < w ==> #[trigger] pos@[j]@.len() == 10,
                forall|j: int, h: int|
                    0 <= j < c && 0 <= h < 10 ==> #[trigger] pos@[j]@[h] == blocker_bottom(trees@, h, j, r - 1),
                forall|j: int, h: int|
                    c <= j < w && 0 <= h < 10 ==> #[trigger] pos@[j]@[h] == blocker_bottom(trees@, h, j, r as int),
                new_row@.len() == c,
                forall|j: int| 0 <= j < c ==> #[trigger] new_row@[j] == row_scores@[j] * view_bottom(trees@, r as int, j),
            decreases row@.len() - c,
        {
            let t = row[c];
            assert(height(trees@, r as int, c as int) <= 9);
            let old_idx = pos[c][t as usize];
            proof {
                lemma_blocker_bottom_bounds(trees@, t as int, c as int, r as int);
            }
            let ghost before = pos@;
            if r < old_idx {
                let mut i: usize = 0;
                while i <= t as usize
                    invariant
                        t <= 9,
                        i <= t + 1,
                        c < w,
                        pos@.len() == w,
                        forall|j: int| 0 <= j < w ==> #[trigger] pos@[j]@.len() == 10,
                        forall|j: int| 0 <= j < w && j != c ==> #[trigger] pos@[j] == before[j],
                        forall|h: int| 0 <= h < i ==> #[trigger] pos@[c as int]@[h] == r,
                        forall|h: int| i <= h < 10 ==> #[trigger] pos@[c as int]@[h] == before[c as int]@[h],
                    decreases t + 1 - i,
                {
                    pos[c].set(i, r);
                    i += 1;
                }
            }
            assert forall|j: int, h: int| 0 <= j < c + 1 && 0 <= h < 10 implies #[trigger] pos@[j]@[h]
                == blocker_bottom(trees@, h, j, r - 1) by {
                if j == c {
                    lemma_blocker_bottom_bounds(trees@, h, j, r as int);
                } else {
                    assert(pos@[j] == before[j]);
                }
            }
            assert forall|j: int, h: int| c + 1 <= j < w && 0 <= h < 10 implies #[trigger] pos@[j]@[h]
                == blocker_bottom(trees@, h, j, r as int) by {
                assert(pos@[j] == before[j]);
            }
            let s = row_scores[c];
            let d = old_idx - r;
            assert(d == view_bottom(trees@, r as int, c as int));
            assert(s * d <= u32::MAX);
            let v: u32 = if s == 0 {
                assert(s as int * d as int == 0) by (nonlinear_arith)
                    requires
                        s == 0,
                ;
                0
            } else {
                assert(d <= s * d) by (nonlinear_arith)
                    requires
                        s >= 1,
                ;
                let d32 = d as u32;
                assert(d32 == d);
                s * d32
            };
            new_row.push(v);
            c += 1;
        }
        assert forall|j: int, h: int| 0 <= j < w && 0 <= h < 10 implies #[trigger] pos@[j]@[h]
            == blocker_bottom(trees@, h, j, r - 1) by {
            if j >= c {
                assert(pos@[j]@[h] == blocker_bottom(trees@, h, j, r as int));
            }
        }
        out.set(r, new_row);
    }
    out
}


/// The scenic score of a tree: the product of how far it sees in the four
/// directions.
pub open spec fn scenic_score(t: Seq<Vec<u8>>, r: int, c: int) -> int {
    view_left(t[r]@, c) * view_right(t[r]@, c) * view_top(t, r, c) * view_bottom(t, r, c)
}

/// The partial products of a tree's scenic score, taken left, right, top,
/// bottom, all fit in `u32`.
pub open spec fn scenic_fits(t: Seq<Vec<u8>>, r: int, c: int) -> bool {
    &&& view_left(t[r]@, c) <= u32::MAX
    &&& view_left(t[r]@, c) * view_right(t[r]@, c) <= u32::MAX
    &&& view_left(t[r]@, c) * view_right(t[r]@, c) * view_top(t, r, c) <= u32::MAX
    &&& scenic_score(t, r, c) <= u32::MAX
}

/// The scenic score of every tree.
pub fn calculate_scenic_score(trees: &Vec<Vec<u8>>) -> (out: Vec<Vec<u32>>)
    requires
        digit_heights(trees@),
        rows_fit_first(trees@),
        forall|r: int| 0 <= r < trees@.len() ==> #[trigger] trees@[r]@.len() > 0,
        forall|r: int, c: int|
            0 <= r < trees@.len() && 0 <= c < trees@[r]@.len() ==> #[trigger] scenic_fits(trees@, r, c),
    ensures
        same_shape(out@, trees@),
        forall|r: int, c: int|
            0 <= r < trees@.len() && 0 <= c < trees@[r]@.len() ==> #[trigger] out@[r]@[c] == scenic_score(
                trees@,
                r,
                c,
            ),
{
    let n = trees.len();
    let mut ones: Vec<Vec<u32>> = Vec::new();
    let mut r: usize = 0;
    while r < n
        invariant
            r <= n,
            n == trees@.len(),
            ones@.len() == r,
            forall|i: int| 0 <= i < r ==> #[trigger] ones@[i]@.len() == trees@[i]@.len(),
            forall|i: int, c: int| 0 <= i < r && 0 <= c < trees@[i]@.len() ==> #[trigger] ones@[i]@[c] == 1,
        decreases n - r,
    {
        let len = trees[r].len();
        ones.push(vec![1; len]);
        r += 1;
    }
    assert forall|i: int, c: int| 0 <= i < n && 0 <= c < trees@[i]@.len() implies #[trigger] ones@[i]@[c]
        * view_left(trees@[i]@, c) <= u32::MAX by {
        assert(scenic_fits(trees@, i, c));
    }
    let score = calc_score_from_left(trees, &ones);
    assert forall|i: int, c: int| 0 <= i < n && 0 <= c < trees@[i]@.len() implies #[trigger] score@[i]@[c]
        * view_right(trees@[i]@, c) <= u32::MAX by {
        assert(scenic_fits(trees@, i, c));
    }
    let score = calc_score_from_right(trees, &score);
    assert forall|i: int, c: int| 0 <= i < n && 0 <= c < trees@[i]@.len() implies #[trigger] score@[i]@[c]
        * view_top(trees@, i, c) <= u32::MAX by {
        assert(scenic_fits(trees@, i, c));
    }
    let score = calc_score_from_top(trees, &score);
    assert forall|i: int, c: int| 0 <= i < n && 0 <= c < trees@[i]@.len() implies #[trigger] score@[i]@[c]
        * view_bottom(trees@, i, c) <= u32::MAX by {
        assert(scenic_fits(trees@, i, c));
    }
    calc_score_from_bottom(trees, &score)
}


/// The height that character `ch` stands for: its low byte less 48, so that
/// `'0'` to `'9'` are 0 to 9.
pub open spec fn digit_height(ch: char) -> int {
    (ch as u32) % 256 - 48
}

/// Reads one row of heights per line.
pub fn parse_input(lines: Vec<&str>) -> (out: Vec<Vec<u8>>)
    requires
        forall|r: int, c: int|
            0 <= r < lines@.len() && 0 <= c < lines@[r]@.len() ==> #[trigger] digit_height(lines@[r]@[c]) >= 0,
    ensures
        out@.len() == lines@.len(),
        forall|r: int| 0 <= r < lines@.len() ==> #[trigger] out@[r]@.len() == lines@[r]@.len(),
        forall|r: int, c: int|
            0 <= r < lines@.len() && 0 <= c < lines@[r]@.len() ==> #[trigger] out@[r]@[c] == digit_height(
                lines@[r]@[c],
            ),
{
    let mut out: Vec<Vec<u8>> = Vec::new();
    let mut r: usize = 0;
    while r < lines.len()
        invariant
            r <= lines@.len(),
            out@.len() == r,
            forall|i: int, c: int|
                0 <= i < lines@.len() && 0 <= c < lines@[i]@.len() ==> #[trigger] digit_height(lines@[i]@[c]) >= 0,
            forall|i: int| 0 <= i < r ==> #[trigger] out@[i]@.len() == lines@[i]@.len(),
            forall|i: int, c: int|
                0 <= i < r && 0 <= c < lines@[i]@.len() ==> #[trigger] out@[i]@[c] == digit_height(lines@[i]@[c]),
        decreases lines@.len() - r,
    {
        let chars = to_chars(lines[r]);
        let mut row: Vec<u8> = Vec::new();
        let mut c: usize = 0;
        while c < chars.len()
            invariant
                r < lines@.len(),
                chars@ == lines@[r as int]@,
                c <= chars@.len(),
                row@.len() == c,
                forall|j: int| 0 <= j < chars@.len() ==> #[trigger] digit_height(chars@[j]) >= 0,
                forall|j: int| 0 <= j < c ==> #[trigger] row@[j] == digit_height(chars@[j]),
            decreases chars@.len() - c,
        {
            let ch = chars[c];
            assert(digit_height(chars@[c as int]) >= 0);
            let low = ((ch as u32) % 256) as u8;
            row.push(low - 48);
            c += 1;
        }
        out.push(row);
        r += 1;
    }
    out
}

} // verus!
