//! Falling sand in a cave scan. A cell holds 0 for air, 1 for rock and 2 for
//! sand that has come to rest. Sand enters at the top row, in column
//! `init_x`, and falls down, else down-left, else down-right, until it can
//! move no more.

use vstd::prelude::*;

verus! {

pub open spec fn grid_view(s: Seq<Vec<u8>>) -> Seq<Seq<u8>> {
    Seq::new(s.len(), |i: int| s[i]@)
}

/// At least one row, and every row as long as the first.
pub open spec fn rectangular(g: Seq<Seq<u8>>) -> bool {
    &&& g.len() > 0
    &&& forall|r: int| 0 <= r < g.len() ==> #[trigger] g[r].len() == g[0].len()
}

pub open spec fn width(g: Seq<Seq<u8>>) -> int {
    g[0].len() as int
}

/// Where a grain at `(x, y)` moves next: down, down-left or down-right,
/// into the first of those that holds air; `None` where all three are
/// blocked.
pub open spec fn next_pos(g: Seq<Seq<u8>>, x: int, y: int) -> Option<(int, int)> {
    if g[y + 1][x] == 0 {
        Some((x, y + 1))
    } else if x > 0 && g[y + 1][x - 1] == 0 {
        Some((x - 1, y + 1))
    } else if x < width(g) - 1 && g[y + 1][x + 1] == 0 {
        Some((x + 1, y + 1))
    } else {
        None
    }
}

/// The grid with sand at `(x, y)`.
pub open spec fn fill(g: Seq<Seq<u8>>, x: int, y: int) -> Seq<Seq<u8>> {
    g.update(y, g[y].update(x, 2))
}

/// Where a grain falling from `(x, y)` comes to rest, trying at most
/// `steps` more moves; `None` where it falls out of the bottom row, reaches
/// the first column, or runs out of moves.
pub open spec fn fall_abyss(g: Seq<Seq<u8>>, x: int, y: int, steps: nat) -> Option<(int, int)>
    decreases steps,
{
    if steps == 0 {
        None
    } else if y == g.len() - 1 || x == width(g) || x == 0 {
        None
    } else {
        match next_pos(g, x, y) {
            Some((x2, y2)) => fall_abyss(g, x2, y2, (steps - 1) as nat),
            None => Some((x, y)),
        }
    }
}

/// The number of grains that come to rest before one is lost, pouring at
/// most `fuel` grains: `(count, true)`, or `(_, false)` where a grain would
/// rest on a cell that already holds sand, from which on the same grain
/// would rest there forever.
pub open spec fn pour_abyss(g: Seq<Seq<u8>>, init_x: int, fuel: nat) -> (nat, bool)
    decreases fuel,
{
    if fuel == 0 {
        (0, false)
    } else {
        match fall_abyss(g, init_x, 0, 250) {
            None => (0, true),
            Some((x, y)) => if g[y][x] == 2 {
                (0, false)
            } else {
                let r = pour_abyss(fill(g, x, y), init_x, (fuel - 1) as nat);
                (r.0 + 1, r.1)
            },
        }
    }
}

/// The cells of `row` that hold no sand.
pub open spec fn row_open(row: Seq<u8>) -> nat
    decreases row.len(),
{
    if row.len() == 0 {
        0
    } else {
        row_open(row.drop_last()) + if row.last() != 2 {
            1nat
        } else {
            0nat
        }
    }
}

/// The cells of `g` that hold no sand.
pub open spec fn open_cells(g: Seq<Seq<u8>>) -> nat
    decreases g.len(),
{
    if g.len() == 0 {
        0
    } else {
        open_cells(g.drop_last()) + row_open(g.last())
    }
}

proof fn lemma_row_open_fill(row: Seq<u8>, x: int)
    requires
        0 <= x < row.len(),
        row[x] != 2,
    ensures
        row_open(row.update(x, 2)) + 1 == row_open(row),
    decreases row.len(),
{
    let u = row.update(x, 2);
    if x < row.len() - 1 {
        assert(u.drop_last() =~= row.drop_last().update(x, 2));
        lemma_row_open_fill(row.drop_last(), x);
    } else {
        assert(u.drop_last() =~= row.drop_last());
    }
}

proof fn lemma_open_cells_fill(g: Seq<Seq<u8>>, x: int, y: int)
    requires
        0 <= y < g.len(),
        0 <= x < g[y].len(),
        g[y][x] != 2,
    ensures
        open_cells(fill(g, x, y)) + 1 == open_cells(g),
    decreases g.len(),
{
    let f = fill(g, x, y);
    if y < g.len() - 1 {
        assert(f.drop_last() =~= fill(g.drop_last(), x, y));
        lemma_open_cells_fill(g.drop_last(), x, y);
    } else {
        assert(f.drop_last() =~= g.drop_last());
        lemma_row_open_fill(g[y], x);
    }
}

proof fn lemma_row_open_bound(row: Seq<u8>)
    ensures
        row_open(row) <= row.len(),
    decreases row.len(),
{
    if row.len() > 0 {
        lemma_row_open_bound(row.drop_last());
    }
}

proof fn lemma_open_cells_bound(g: Seq<Seq<u8>>, w: int)
    requires
        forall|r: int| 0 <= r < g.len() ==> #[trigger] g[r].len() == w,
    ensures
        open_cells(g) <= g.len() * w,
    decreases g.len(),
{
    if g.len() > 0 {
        lemma_open_cells_bound(g.drop_last(), w);
        lemma_row_open_bound(g.last());
        assert((g.len() - 1) * w + w == g.len() * w) by (nonlinear_arith);
    }
}

proof fn lemma_fill_rectangular(g: Seq<Seq<u8>>, x: int, y: int)
    requires
        rectangular(g),
        0 <= y < g.len(),
        0 <= x < width(g),
    ensures
        rectangular(fill(g, x, y)),
        width(fill(g, x, y)) == width(g),
        fill(g, x, y).len() == g.len(),
{
    assert(fill(g, x, y)[0].len() == g[0].len());
}

/// Drops one grain from `(init_x, 0)` for at most 250 moves.
fn drop_abyss(scan: &Vec<Vec<u8>>, init_x: usize) -> (r: Option<(usize, usize)>)
    requires
        rectangular(grid_view(scan@)),
        init_x <= width(grid_view(scan@)),
    ensures
        r matches Some((x, y)) ==> fall_abyss(grid_view(scan@), init_x as int, 0, 250) == Some((x as int, y as int))
            && y < scan@.len() && x < width(grid_view(scan@)),
        r is None ==> fall_abyss(grid_view(scan@), init_x as int, 0, 250) is None,
{
    let ghost g = grid_view(scan@);
    let h = scan.len();
    let w = scan[0].len();
    let mut x = init_x;
    let mut y: usize = 0;
    let mut k: usize = 0;
    while k < 250
        invariant
            g == grid_view(scan@),
            rectangular(g),
            h == g.len(),
            w == width(g),
            x <= w,
            y < h,
            k <= 250,
            fall_abyss(g, init_x as int, 0, 250) == fall_abyss(g, x as int, y as int, (250 - k) as nat),
        decreases 250 - k,
    {
        if y == h - 1 || x == w || x == 0 {
            return None;
        }
        assert(scan@[y + 1]@ == g[y + 1]);
        assert(g[y + 1].len() == w);
        if scan[y + 1][x] == 0 {
            y = y + 1;
        } else if x > 0 && scan[y + 1][x - 1] == 0 {
            x = x - 1;
            y = y + 1;
        } else if x < w - 1 && scan[y + 1][x + 1] == 0 {
            x = x + 1;
            y = y + 1;
        } else {
            return Some((x, y));
        }
        k += 1;
    }
    None
}

/// Pours sand until a grain falls out of the cave and returns how many came
/// to rest; `None` where the pouring would never end, a grain resting
/// again and again on sand at the same place.
#[verifier::loop_isolation(false)]
pub fn simulate_sand_part_one(scan: Vec<Vec<u8>>, init_x: usize) -> (r: Option<usize>)
    requires
        rectangular(grid_view(scan@)),
        scan@.len() * width(grid_view(scan@)) <= usize::MAX,
        init_x <= width(grid_view(scan@)),
    ensures
        r matches Some(n) ==> forall|f: nat|
            f > open_cells(grid_view(scan@)) ==> #[trigger] pour_abyss(grid_view(scan@), init_x as int, f) == (
                n as nat,
                true,
            ),
        r is None ==> forall|f: nat|
            f > open_cells(grid_view(scan@)) ==> !#[trigger] pour_abyss(grid_view(scan@), init_x as int, f).1,
{
    let ghost g0 = grid_view(scan@);
    let ghost fuel0 = open_cells(g0) + 1;
    proof {
        lemma_open_cells_bound(g0, width(g0));
    }
    let mut scan = scan;
    let mut rested: usize = 0;
    loop
        invariant
            rectangular(grid_view(scan@)),
            grid_view(scan@).len() == g0.len(),
            width(grid_view(scan@)) == width(g0),
            init_x <= width(g0),
            open_cells(g0) <= usize::MAX,
            rested + open_cells(grid_view(scan@)) == open_cells(g0),
            pour_abyss(g0, init_x as int, fuel0) == ({
                let p = pour_abyss(grid_view(scan@), init_x as int, (fuel0 - rested) as nat);
                ((p.0 + rested) as nat, p.1)
            }),
        decreases open_cells(grid_view(scan@)),
    {
        let ghost g = grid_view(scan@);
        match drop_abyss(&scan, init_x) {
            None => {
                proof {
                    assert forall|f: nat| f > open_cells(g0) implies #[trigger] pour_abyss(g0, init_x as int, f) == (
                        rested as nat,
                        true,
                    ) by {
                        lemma_pour_abyss_allowance(g0, init_x as int, f, fuel0);
                    }
                }
                return Some(rested);
            },
            Some((x, y)) => {
                assert(scan@[y as int]@ == g[y as int]);
                if scan[y][x] == 2 {
                    proof {
                        assert forall|f: nat| f > open_cells(g0) implies !#[trigger] pour_abyss(g0, init_x as int, f).1 by {
                            lemma_pour_abyss_allowance(g0, init_x as int, f, fuel0);
                        }
                    }
                    return None;
                }
                proof {
                    lemma_open_cells_fill(g, x as int, y as int);
                    lemma_fill_rectangular(g, x as int, y as int);
                }
                scan[y].set(x, 2);
                assert(grid_view(scan@) =~= fill(g, x as int, y as int));
                rested += 1;
            },
        }
    }
}


/// Where a grain falling from `(x, y)` comes to rest when nothing is lost:
/// it stops at the bottom row, at the first or last column, or where all
/// three cells below are blocked.
pub open spec fn fall_floor(g: Seq<Seq<u8>>, x: int, y: int) -> (int, int)
    decreases g.len() - y,
{
    if y >= g.len() - 1 || x == width(g) - 1 || x == 0 {
        (x, y)
    } else {
        match next_pos(g, x, y) {
            Some((x2, y2)) => fall_floor(g, x2, y2),
            None => (x, y),
        }
    }
}

/// `g` with a row of air and then a row of rock added at the bottom.
pub open spec fn with_floor(g: Seq<Seq<u8>>) -> Seq<Seq<u8>> {
    g.push(Seq::new(width(g) as nat, |i: int| 0u8)).push(Seq::new(width(g) as nat, |i: int| 1u8))
}

/// The number of grains that come to rest until the entry cell holds sand,
/// pouring at most `fuel` grains.
pub open spec fn pour_floor(g: Seq<Seq<u8>>, init_x: int, fuel: nat) -> nat
    decreases fuel,
{
    if fuel == 0 || g[0][init_x] != 0 {
        0
    } else {
        let (x, y) = fall_floor(g, init_x, 0);
        pour_floor(fill(g, x, y), init_x, (fuel - 1) as nat) + 1
    }
}

proof fn lemma_fall_floor_lands_on_air(g: Seq<Seq<u8>>, x: int, y: int)
    requires
        rectangular(g),
        0 <= y < g.len(),
        0 <= x < width(g),
        g[y][x] == 0,
    ensures
        0 <= fall_floor(g, x, y).1 < g.len(),
        0 <= fall_floor(g, x, y).0 < width(g),
        g[fall_floor(g, x, y).1][fall_floor(g, x, y).0] == 0,
    decreases g.len() - y,
{
    if !(y >= g.len() - 1 || x == width(g) - 1 || x == 0) {
        assert(g[y + 1].len() == width(g));
        match next_pos(g, x, y) {
            Some((x2, y2)) => lemma_fall_floor_lands_on_air(g, x2, y2),
            None => {},
        }
    }
}

/// Drops one grain from `(init_x, 0)` until it rests.
fn drop_floor(scan: &Vec<Vec<u8>>, init_x: usize) -> (r: (usize, usize))
    requires
        rectangular(grid_view(scan@)),
        init_x < width(grid_view(scan@)),
    ensures
        fall_floor(grid_view(scan@), init_x as int, 0) == (r.0 as int, r.1 as int),
{
    let ghost g = grid_view(scan@);
    let h = scan.len();
    let w = scan[0].len();
    let mut x = init_x;
    let mut y: usize = 0;
    loop
        invariant
            g == grid_view(scan@),
            rectangular(g),
            h == g.len(),
            w == width(g),
            x < w,
            y < h,
            fall_floor(g, init_x as int, 0) == fall_floor(g, x as int, y as int),
        decreases h - y,
    {
        if y == h - 1 || x == w - 1 || x == 0 {
            return (x, y);
        }
        assert(scan@[y + 1]@ == g[y + 1]);
        assert(g[y + 1].len() == w);
        if scan[y + 1][x] == 0 {
            y = y + 1;
        } else if x > 0 && scan[y + 1][x - 1] == 0 {
            x = x - 1;
            y = y + 1;
        } else if x < w - 1 && scan[y + 1][x + 1] == 0 {
            x = x + 1;
            y = y + 1;
        } else {
            return (x, y);
        }
    }
}

/// Adds a floor two rows below the scan and pours sand until the entry cell
/// is covered; returns how many grains came to rest.
#[verifier::loop_isolation(false)]
pub fn simulate_sand_part_two(scan: Vec<Vec<u8>>, init_x: usize) -> (r: usize)
    requires
        rectangular(grid_view(scan@)),
        init_x < width(grid_view(scan@)),
        (scan@.len() + 2) * width(grid_view(scan@)) <= usize::MAX,
    ensures
        forall|f: nat|
            f > open_cells(with_floor(grid_view(scan@))) ==> r == #[trigger] pour_floor(
                with_floor(grid_view(scan@)),
                init_x as int,
                f,
            ),
{
    let ghost g0 = with_floor(grid_view(scan@));
    let ghost fuel0 = open_cells(g0) + 1;
    let mut scan = scan;
    let ghost g = grid_view(scan@);
    let w = scan[0].len();
    let air: Vec<u8> = vec![0; w];
    let rock: Vec<u8> = vec![1; w];
    assert(air@ =~= Seq::new(width(g) as nat, |i: int| 0u8));
    assert(rock@ =~= Seq::new(width(g) as nat, |i: int| 1u8));
    scan.push(air);
    scan.push(rock);
    assert(grid_view(scan@) =~= g0);
    proof {
        lemma_open_cells_bound(g0, width(g0));
    }
    let mut rested: usize = 0;
    while scan[0][init_x] == 0
        invariant
            rectangular(grid_view(scan@)),
            grid_view(scan@).len() == g0.len(),
            width(grid_view(scan@)) == width(g0),
            w == width(g0),
            init_x < w,
            open_cells(g0) <= usize::MAX,
            rested + open_cells(grid_view(scan@)) == open_cells(g0),
            pour_floor(g0, init_x as int, fuel0) == rested + pour_floor(
                grid_view(scan@),
                init_x as int,
                (fuel0 - rested) as nat,
            ),
        decreases open_cells(grid_view(scan@)),
    {
        let ghost g = grid_view(scan@);
        assert(scan@[0]@ == g[0]);
        let (x, y) = drop_floor(&scan, init_x);
        proof {
            lemma_fall_floor_lands_on_air(g, init_x as int, 0);
            lemma_open_cells_fill(g, x as int, y as int);
            lemma_fill_rectangular(g, x as int, y as int);
        }
        scan[y].set(x, 2);
        assert(grid_view(scan@) =~= fill(g, x as int, y as int));
        rested += 1;
    }
    assert(scan@[0]@ == grid_view(scan@)[0]);
    proof {
        assert forall|f: nat| f > open_cells(g0) implies rested == #[trigger] pour_floor(g0, init_x as int, f) by {
            lemma_pour_floor_allowance(g0, init_x as int, f, fuel0);
        }
    }
    rested
}


proof fn lemma_fall_abyss_bounds(g: Seq<Seq<u8>>, x: int, y: int, steps: nat)
    requires
        rectangular(g),
        0 <= y < g.len(),
        0 <= x <= width(g),
    ensures
        fall_abyss(g, x, y, steps) matches Some((x2, y2)) ==> 0 <= y2 < g.len() && 0 <= x2 < width(g),
    decreases steps,
{
    if steps > 0 && !(y == g.len() - 1 || x == width(g) || x == 0) {
        assert(g[y + 1].len() == width(g));
        match next_pos(g, x, y) {
            Some((x2, y2)) => lemma_fall_abyss_bounds(g, x2, y2, (steps - 1) as nat),
            None => {},
        }
    }
}

/// The allowance of grains never cuts the pouring short: any allowance
/// above the number of cells without sand gives the same outcome, since
/// every grain that comes to rest fills one such cell.
pub proof fn lemma_pour_abyss_allowance(g: Seq<Seq<u8>>, init_x: int, f1: nat, f2: nat)
    requires
        rectangular(g),
        0 <= init_x <= width(g),
        f1 > open_cells(g),
        f2 > open_cells(g),
    ensures
        pour_abyss(g, init_x, f1) == pour_abyss(g, init_x, f2),
    decreases f1,
{
    lemma_fall_abyss_bounds(g, init_x, 0, 250);
    match fall_abyss(g, init_x, 0, 250) {
        None => {},
        Some((x, y)) => {
            if g[y][x] != 2 {
                lemma_open_cells_fill(g, x, y);
                lemma_fill_rectangular(g, x, y);
                lemma_pour_abyss_allowance(fill(g, x, y), init_x, (f1 - 1) as nat, (f2 - 1) as nat);
            }
        },
    }
}

/// The same for pouring onto the floor; there every grain fills a cell of
/// air, so the pouring always ends once the entry cell is covered.
pub proof fn lemma_pour_floor_allowance(g: Seq<Seq<u8>>, init_x: int, f1: nat, f2: nat)
    requires
        rectangular(g),
        0 <= init_x < width(g),
        f1 > open_cells(g),
        f2 > open_cells(g),
    ensures
        pour_floor(g, init_x, f1) == pour_floor(g, init_x, f2),
    decreases f1,
{
    if g[0][init_x] == 0 {
        lemma_fall_floor_lands_on_air(g, init_x, 0);
        let (x, y) = fall_floor(g, init_x, 0);
        lemma_open_cells_fill(g, x, y);
        lemma_fill_rectangular(g, x, y);
        lemma_pour_floor_allowance(fill(g, x, y), init_x, (f1 - 1) as nat, (f2 - 1) as nat);
    }
}

} // verus!
