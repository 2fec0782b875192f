//! Cumulative path costs by dynamic programming, and the cheapest seam.
use vstd::prelude::*;
use crate::energy::{energy_spec, pixel_energy, pixels_of};
use crate::grid::{Cell, Grid};

verus! {

/// Column `k` is a parent of column `x` in a row of `n` cells: one of
/// `x - 1`, `x` and `x + 1` that exists.
pub open spec fn is_parent(n: int, x: int, k: int) -> bool {
    0 <= k < n && x - 1 <= k <= x + 1
}

/// `k` is the leftmost parent of `x` in `row` with the least path cost.
#[verifier::opaque]
pub open spec fn is_best_parent(row: Seq<Cell>, x: int, k: int) -> bool {
    &&& is_parent(row.len() as int, x, k)
    &&& forall|j: int| #[trigger] is_parent(row.len() as int, x, j) ==> row[k].path_cost <= row[j].path_cost
    &&& forall|j: int|
        #[trigger] is_parent(row.len() as int, x, j) && j < k ==> row[k].path_cost < row[j].path_cost
}

/// The leftmost parent of `x` in `row` with the least path cost.
pub open spec fn best_parent(row: Seq<Cell>, x: int) -> int {
    choose|k: int| is_best_parent(row, x, k)
}

/// The least path cost among the parents of `x` in `row`.
pub open spec fn min_parent_cost(row: Seq<Cell>, x: int) -> int {
    row[best_parent(row, x)].path_cost as int
}

/// Every column of a row has a leftmost cheapest parent.
pub proof fn lemma_best_parent_exists(row: Seq<Cell>, x: int)
    requires
        0 <= x < row.len(),
    ensures
        is_best_parent(row, x, best_parent(row, x)),
        x - 1 <= best_parent(row, x) <= x + 1,
        0 <= best_parent(row, x) < row.len(),
{
    let n = row.len() as int;
    let b0 = if x > 0 {
        x - 1
    } else {
        x
    };
    let b1 = if row[x].path_cost < row[b0].path_cost {
        x
    } else {
        b0
    };
    let k = if x + 1 < n && row[x + 1].path_cost < row[b1].path_cost {
        x + 1
    } else {
        b1
    };
    assert forall|j: int| #[trigger] is_parent(n, x, j) implies row[k].path_cost <= row[j].path_cost by {
        assert(j == x - 1 || j == x || j == x + 1);
    }
    assert forall|j: int| #[trigger] is_parent(n, x, j) && j < k implies row[k].path_cost
        < row[j].path_cost by {
        assert(j == x - 1 || j == x || j == x + 1);
    }
    reveal(is_best_parent);
    assert(is_best_parent(row, x, k));
    lemma_best_parent_unique(row, x, k);
}

/// There is at most one leftmost cheapest parent.
pub proof fn lemma_best_parent_unique(row: Seq<Cell>, x: int, k: int)
    requires
        is_best_parent(row, x, k),
    ensures
        best_parent(row, x) == k,
        is_best_parent(row, x, best_parent(row, x)),
{
    let c = best_parent(row, x);
    assert(is_best_parent(row, x, c));
    reveal(is_best_parent);
    if c < k {
        assert(is_parent(row.len() as int, x, c));
        assert(is_parent(row.len() as int, x, k));
    } else if k < c {
        assert(is_parent(row.len() as int, x, c));
        assert(is_parent(row.len() as int, x, k));
    }
}

/// The cell at `(x, y)` holds the cheapest cost of a path from row 0 down to
/// it, given the energies of the cells.
pub open spec fn path_cost_valid(m: Seq<Seq<Cell>>, x: int, y: int) -> bool {
    m[y][x].path_cost == m[y][x].energy + if y == 0 {
        0
    } else {
        min_parent_cost(m[y - 1], x)
    }
}

/// The cell at `(x, y)` holds its energy and the cheapest cost of a path from
/// row 0 down to it.
pub open spec fn cell_cost_valid(m: Seq<Seq<Cell>>, x: int, y: int) -> bool {
    &&& m[y][x].energy == energy_spec(pixels_of(m), x, y)
    &&& path_cost_valid(m, x, y)
}

/// Every cell holds its energy and path cost.
pub open spec fn costs_valid(g: Grid) -> bool {
    forall|x: int, y: int| g.in_bounds(x, y) ==> #[trigger] cell_cost_valid(g@, x, y)
}

/// A full pass leaves every cell with a path cost no lower than its energy,
/// and each cell of row 0 with a path cost equal to its energy.
pub proof fn lemma_cost_at_least_energy(g: Grid, x: int, y: int)
    requires
        g.wf(),
        costs_valid(g),
        g.in_bounds(x, y),
    ensures
        g@[y][x].path_cost >= g@[y][x].energy,
        y == 0 ==> g@[y][x].path_cost == g@[y][x].energy,
{
    assert(cell_cost_valid(g@, x, y));
}

/// `x` is the leftmost column of `row` with the smallest path cost.
pub open spec fn is_leftmost_min(row: Seq<Cell>, x: int) -> bool {
    &&& 0 <= x < row.len()
    &&& forall|k: int| 0 <= k < row.len() ==> row[x].path_cost <= (#[trigger] row[k]).path_cost
    &&& forall|k: int| 0 <= k < x ==> row[x].path_cost < (#[trigger] row[k]).path_cost
}

/// `s` is the seam of `g` that starts at column `start` of the last row and
/// climbs, one row at a time, to the cheapest parent.
pub open spec fn is_seam_from(g: Grid, start: int, s: Seq<(usize, usize)>) -> bool {
    is_walk_from(g, start, g.height_spec() - 1, s)
}

/// `s` is the walk of `g` from `(start_x, start_y)` up to row 0, each step to
/// the cheapest parent (the leftmost on a tie).
pub open spec fn is_walk_from(g: Grid, start_x: int, start_y: int, s: Seq<(usize, usize)>) -> bool {
    &&& s.len() == start_y + 1
    &&& s[0].0 == start_x
    &&& forall|i: int| 0 <= i < s.len() ==> (#[trigger] s[i]).1 == start_y - i
    &&& forall|i: int| 0 <= i < s.len() ==> (#[trigger] s[i]).0 < g.width_spec()
    &&& forall|i: int|
        0 <= i < s.len() - 1 ==> (#[trigger] s[i + 1]).0 == best_parent(
            g@[s[i].1 - 1],
            s[i].0 as int,
        )
}

/// Sum of the energies of the cells of `m` that `s` names from index `i` on.
pub open spec fn walk_energy(m: Seq<Seq<Cell>>, s: Seq<(usize, usize)>, i: int) -> int
    decreases s.len() - i,
{
    if i >= s.len() || i < 0 {
        0
    } else {
        m[s[i].1 as int][s[i].0 as int].energy + walk_energy(m, s, i + 1)
    }
}

/// After a full cost pass, the energies along the walk from a cell to row 0
/// add up to that cell's path cost.
pub proof fn lemma_walk_energy(g: Grid, start_x: int, start_y: int, s: Seq<(usize, usize)>, i: int)
    requires
        g.wf(),
        costs_valid(g),
        g.in_bounds(start_x, start_y),
        is_walk_from(g, start_x, start_y, s),
        0 <= i < s.len(),
    ensures
        walk_energy(g@, s, i) == g@[s[i].1 as int][s[i].0 as int].path_cost,
    decreases s.len() - i,
{
    let x = s[i].0 as int;
    let y = s[i].1 as int;
    assert(y == start_y - i);
    assert(cell_cost_valid(g@, x, y));
    if i + 1 < s.len() {
        lemma_walk_energy(g, start_x, start_y, s, i + 1);
        let row = g@[y - 1];
        assert(row.len() == g.width_spec());
        assert(s[i + 1].1 == y - 1);
        assert(min_parent_cost(row, x) == row[best_parent(row, x)].path_cost);
    } else {
        assert(walk_energy(g@, s, i + 1) == 0);
    }
}

/// A seam has one point per row, bottom to top, each within the grid and at
/// most one column away from the point below it.
pub open spec fn is_connected_seam(g: Grid, s: Seq<(usize, usize)>) -> bool {
    &&& s.len() == g.height_spec()
    &&& forall|i: int|
        0 <= i < s.len() ==> (#[trigger] s[i]).1 == g.height_spec() - 1 - i && s[i].0
            < g.width_spec()
    &&& forall|i: int|
        0 <= i < s.len() - 1 ==> -1 <= (#[trigger] s[i + 1]).0 - s[i].0 <= 1
}

/// Every seam that climbs to the cheapest parent is connected: exactly one
/// point per row, adjacent rows at most one column apart.
pub proof fn lemma_seam_connected(g: Grid, start_x: int, start_y: int, s: Seq<(usize, usize)>)
    requires
        g.wf(),
        0 <= start_y < g.height_spec(),
        is_walk_from(g, start_x, start_y, s),
    ensures
        forall|i: int| 0 <= i < s.len() - 1 ==> -1 <= (#[trigger] s[i + 1]).0 - s[i].0 <= 1,
        start_y == g.height_spec() - 1 ==> is_connected_seam(g, s),
{
    assert forall|i: int| 0 <= i < s.len() - 1 implies -1 <= (#[trigger] s[i + 1]).0 - s[i].0
        <= 1 by {
        assert(s[i].1 == start_y - i);
        assert(g@[s[i].1 - 1].len() == g.width_spec());
        lemma_best_parent_exists(g@[s[i].1 - 1], s[i].0 as int);
        assert(s[i].0 < g.width_spec());
        let row = g@[s[i].1 - 1];
        assert(row.len() == g.width_spec());
    }
}

/// Computes the energy and path cost of every cell: the full pass that
/// precedes each seam extraction.
pub fn calculate_energy(grid: &mut Grid)
    requires
        old(grid).wf(),
    ensures
        final(grid).wf(),
        final(grid).width_spec() == old(grid).width_spec(),
        final(grid).height_spec() == old(grid).height_spec(),
        costs_valid(*final(grid)),
        forall|x: int, y: int|
            old(grid).in_bounds(x, y) ==> (#[trigger] final(grid)@[y][x]).pixel == old(grid)@[y][x].pixel
                && final(grid)@[y][x].original_position == old(grid)@[y][x].original_position,
{
    calculate_pixel_energies(grid);
    let ghost mid = *grid;
    calculate_path_costs(grid);
    proof {
        assert(pixels_of(mid@) =~= pixels_of(old(grid)@)) by {
            assert forall|a: int| 0 <= a < mid@.len() implies #[trigger] pixels_of(mid@)[a]
                =~= pixels_of(old(grid)@)[a] by {
                assert(mid@[a].len() == old(grid).width_spec());
                assert(old(grid)@[a].len() == old(grid).width_spec());
                assert forall|x: int| 0 <= x < old(grid).width_spec() implies mid@[a][x].pixel
                    == old(grid)@[a][x].pixel by {
                    assert(old(grid).in_bounds(x, a));
                }
            }
        }
        assert(pixels_of(grid@) =~= pixels_of(mid@)) by {
            assert forall|a: int| 0 <= a < grid@.len() implies #[trigger] pixels_of(grid@)[a]
                =~= pixels_of(mid@)[a] by {
                assert(grid@[a].len() == grid.width_spec());
                assert(mid@[a].len() == grid.width_spec());
            }
        }
        assert forall|x: int, y: int| grid.in_bounds(x, y) implies #[trigger] cell_cost_valid(
            grid@,
            x,
            y,
        ) by {
            assert(grid@[y][x].energy == mid@[y][x].energy);
        }
    }
}

/// Sets the energy of every cell from the colours of the grid.
pub fn calculate_pixel_energies(grid: &mut Grid)
    requires
        old(grid).wf(),
    ensures
        final(grid).wf(),
        final(grid).width_spec() == old(grid).width_spec(),
        final(grid).height_spec() == old(grid).height_spec(),
        forall|x: int, y: int|
            old(grid).in_bounds(x, y) ==> #[trigger] final(grid)@[y][x] == (Cell {
                energy: energy_spec(pixels_of(old(grid)@), x, y) as u32,
                ..old(grid)@[y][x]
            }),
        forall|x: int, y: int|
            old(grid).in_bounds(x, y) ==> (#[trigger] final(grid)@[y][x]).energy == energy_spec(
                pixels_of(old(grid)@),
                x,
                y,
            ),
{
    let w = grid.width();
    let h = grid.height();
    let ghost p0 = pixels_of(old(grid)@);
    let mut y: usize = 0;
    while y < h
        invariant
            y <= h,
            grid.wf(),
            w == grid.width_spec(),
            h == grid.height_spec(),
            old(grid).wf(),
            w == old(grid).width_spec(),
            h == old(grid).height_spec(),
            pixels_of(grid@) == p0,
            forall|i: int, j: int|
                0 <= i < w && 0 <= j < h ==> (#[trigger] grid@[j][i]) == (Cell {
                    energy: if j < y {
                        energy_spec(p0, i, j) as u32
                    } else {
                        old(grid)@[j][i].energy
                    },
                    ..old(grid)@[j][i]
                }),
            forall|i: int, j: int|
                0 <= i < w && 0 <= j < y ==> (#[trigger] grid@[j][i]).energy == energy_spec(p0, i, j),
        decreases h - y,
    {
        let mut x: usize = 0;
        while x < w
            invariant
                x <= w,
                y < h,
                grid.wf(),
                w == grid.width_spec(),
                h == grid.height_spec(),
                old(grid).wf(),
                w == old(grid).width_spec(),
                h == old(grid).height_spec(),
                pixels_of(grid@) == p0,
                forall|i: int, j: int|
                    0 <= i < w && 0 <= j < h ==> (#[trigger] grid@[j][i]) == (Cell {
                        energy: if j < y || (j == y && i < x) {
                            energy_spec(p0, i, j) as u32
                        } else {
                            old(grid)@[j][i].energy
                        },
                        ..old(grid)@[j][i]
                    }),
                forall|i: int, j: int|
                    0 <= i < w && (0 <= j < y || (j == y && i < x)) ==> (#[trigger] grid@[j][i]).energy
                        == energy_spec(p0, i, j),
            decreases w - x,
        {
            let energy = pixel_energy(grid, x, y);
            let mut c = grid.get(x, y);
            c.energy = energy;
            let ghost before = grid@;
            grid.set(x, y, c);
            proof {
                assert forall|a: int| 0 <= a < h implies #[trigger] pixels_of(grid@)[a] == p0[a] by {
                    assert(pixels_of(before)[a] == p0[a]);
                    assert(before[a].len() == w);
                    assert(grid@[a].len() == w);
                    assert(pixels_of(grid@)[a] =~= pixels_of(before)[a]);
                }
                assert(pixels_of(grid@) =~= p0);
            }
            x = x + 1;
        }
        y = y + 1;
    }
}

#[verifier::rlimit(60)]
/// Sets the path cost of every cell, row by row from the top: its energy
/// plus the smallest path cost among its parents (none in row 0).
pub fn calculate_path_costs(grid: &mut Grid)
    requires
        old(grid).wf(),
    ensures
        final(grid).wf(),
        final(grid).width_spec() == old(grid).width_spec(),
        final(grid).height_spec() == old(grid).height_spec(),
        forall|x: int, y: int|
            old(grid).in_bounds(x, y) ==> (#[trigger] final(grid)@[y][x]).pixel == old(grid)@[y][x].pixel
                && final(grid)@[y][x].energy == old(grid)@[y][x].energy
                && final(grid)@[y][x].original_position == old(grid)@[y][x].original_position,
        forall|x: int, y: int|
            old(grid).in_bounds(x, y) ==> #[trigger] path_cost_valid(final(grid)@, x, y),
{
    let w = grid.width();
    let h = grid.height();
    let mut y: usize = 0;
    while y < h
        invariant
            y <= h,
            grid.wf(),
            w == grid.width_spec(),
            h == grid.height_spec(),
            old(grid).wf(),
            w == old(grid).width_spec(),
            h == old(grid).height_spec(),
            forall|i: int, j: int|
                old(grid).in_bounds(i, j) ==> (#[trigger] grid@[j][i]).pixel == old(grid)@[j][i].pixel
                    && grid@[j][i].energy == old(grid)@[j][i].energy
                    && grid@[j][i].original_position == old(grid)@[j][i].original_position,
            forall|i: int, j: int| 0 <= i < w && 0 <= j < y ==> #[trigger] path_cost_valid(grid@, i, j),
            forall|i: int, j: int|
                0 <= i < w && 0 <= j < y ==> (#[trigger] grid@[j][i]).path_cost <= (j + 1) * 0xffff_ffff,
        decreases h - y,
    {
        let mut x: usize = 0;
        while x < w
            invariant
                x <= w,
                y < h,
                grid.wf(),
                w == grid.width_spec(),
                h == grid.height_spec(),
                old(grid).wf(),
                w == old(grid).width_spec(),
                h == old(grid).height_spec(),
                forall|i: int, j: int|
                    old(grid).in_bounds(i, j) ==> (#[trigger] grid@[j][i]).pixel == old(grid)@[j][i].pixel
                        && grid@[j][i].energy == old(grid)@[j][i].energy
                        && grid@[j][i].original_position == old(grid)@[j][i].original_position,
                forall|i: int, j: int|
                    0 <= i < w && (0 <= j < y || (j == y && i < x)) ==> #[trigger] path_cost_valid(
                        grid@,
                        i,
                        j,
                    ),
                forall|i: int, j: int|
                    0 <= i < w && (0 <= j < y || (j == y && i < x)) ==> (#[trigger] grid@[j][i]).path_cost
                        <= (j + 1) * 0xffff_ffff,
            decreases w - x,
        {
            let parent_cost = min_parent_path_cost(grid, x, y);
            proof {
                if y > 0 {
                    assert(grid@[y - 1][x as int].path_cost <= y * 0xffff_ffff);
                }
            }
            let mut c = grid.get(x, y);
            c.path_cost = parent_cost + c.energy as u128;
            let ghost before = grid@;
            grid.set(x, y, c);
            proof {
                assert(grid@[y as int].len() == w);
                assert(before[y as int].len() == w);
                assert forall|i: int, j: int|
                    0 <= i < w && (0 <= j < y || (j == y && i <= x)) implies #[trigger] path_cost_valid(
                    grid@,
                    i,
                    j,
                ) by {
                    if j == y && i == x {
                    } else {
                        assert(path_cost_valid(before, i, j));
                    }
                }
            }
            x = x + 1;
        }
        y = y + 1;
    }
}

/// The column of the last row with the smallest path cost, the leftmost on
/// a tie.
pub fn get_path_start(grid: &Grid) -> (r: (usize, usize))
    requires
        grid.wf(),
    ensures
        r.1 == grid.height_spec() - 1,
        is_leftmost_min(grid@[r.1 as int], r.0 as int),
{
    let w = grid.width();
    let y = grid.height() - 1;
    let ghost row = grid@[y as int];
    proof {
        assert(row.len() == w);
    }
    let mut best: usize = 0;
    let mut best_cost = grid.get(0, y).path_cost;
    let mut x: usize = 1;
    while x < w
        invariant
            1 <= x <= w,
            w == grid.width_spec(),
            y == grid.height_spec() - 1,
            grid.wf(),
            row == grid@[y as int],
            row.len() == w,
            best < x,
            best_cost == row[best as int].path_cost,
            forall|k: int| 0 <= k < x ==> best_cost <= (#[trigger] row[k]).path_cost,
            forall|k: int| 0 <= k < best ==> best_cost < (#[trigger] row[k]).path_cost,
        decreases w - x,
    {
        let c = grid.get(x, y).path_cost;
        if c < best_cost {
            best = x;
            best_cost = c;
        }
        x = x + 1;
    }
    (best, y)
}

/// The walk from `(start_x, start_y)` up to row 0, each step to the parent
/// with the smallest path cost, the leftmost on a tie. From the last row it
/// is a seam; after a full cost pass its energies add up to the start's
/// path cost.
pub fn find_path(grid: &Grid, start_x: usize, start_y: usize) -> (r: Vec<(usize, usize)>)
    requires
        grid.wf(),
        grid.in_bounds(start_x as int, start_y as int),
    ensures
        is_walk_from(*grid, start_x as int, start_y as int, r@),
        forall|i: int| 0 <= i < r@.len() - 1 ==> -1 <= (#[trigger] r@[i + 1]).0 - r@[i].0 <= 1,
        start_y == grid.height_spec() - 1 ==> is_seam_from(*grid, start_x as int, r@)
            && is_connected_seam(*grid, r@),
        costs_valid(*grid) ==> walk_energy(grid@, r@, 0) == grid@[start_y as int][start_x as int].path_cost,
{
    let h = grid.height();
    let w = grid.width();
    let mut path: Vec<(usize, usize)> = Vec::new();
    path.push((start_x, start_y));
    let mut x: usize = start_x;
    let mut y: usize = start_y;
    while y > 0
        invariant
            grid.wf(),
            h == grid.height_spec(),
            w == grid.width_spec(),
            x < w,
            y < h,
            start_y < h,
            y <= start_y,
            path@.len() == start_y + 1 - y,
            path@[0].0 == start_x,
            path@.last() == (x, y),
            forall|i: int| 0 <= i < path@.len() ==> (#[trigger] path@[i]).1 == start_y - i,
            forall|i: int| 0 <= i < path@.len() ==> (#[trigger] path@[i]).0 < w,
            forall|i: int|
                0 <= i < path@.len() - 1 ==> (#[trigger] path@[i + 1]).0 == best_parent(
                    grid@[path@[i].1 - 1],
                    path@[i].0 as int,
                ),
        decreases y,
    {
        let px = parent_with_min_path_cost(grid, x, y);
        let ghost before = path@;
        path.push((px, y - 1));
        proof {
            assert forall|i: int| 0 <= i < path@.len() - 1 implies (#[trigger] path@[i + 1]).0
                == best_parent(grid@[path@[i].1 - 1], path@[i].0 as int) by {
                if i < before.len() - 1 {
                    assert(path@[i + 1] == before[i + 1]);
                    assert(path@[i] == before[i]);
                } else {
                    assert(path@[i] == before.last());
                }
            }
        }
        x = px;
        y = y - 1;
    }
    proof {
        lemma_seam_connected(*grid, start_x as int, start_y as int, path@);
        if costs_valid(*grid) {
            lemma_walk_energy(*grid, start_x as int, start_y as int, path@, 0);
        }
    }
    path
}

/// The column of the parent of `(x, y)` with the smallest path cost, the
/// leftmost on a tie.
fn parent_with_min_path_cost(grid: &Grid, x: usize, y: usize) -> (r: usize)
    requires
        grid.wf(),
        grid.in_bounds(x as int, y as int),
        y > 0,
    ensures
        r == best_parent(grid@[y - 1], x as int),
        is_best_parent(grid@[y - 1], x as int, r as int),
        r < grid.width_spec(),
{
    let ghost row = grid@[y - 1];
    proof {
        assert(row.len() == grid.width_spec());
    }
    let b0 = if x > 0 {
        x - 1
    } else {
        x
    };
    let b1 = if grid.get(x, y - 1).path_cost < grid.get(b0, y - 1).path_cost {
        x
    } else {
        b0
    };
    let r = if x + 1 < grid.width() && grid.get(x + 1, y - 1).path_cost < grid.get(b1, y - 1).path_cost {
        x + 1
    } else {
        b1
    };
    proof {
        let n = row.len() as int;
        assert forall|j: int| #[trigger] is_parent(n, x as int, j) implies row[r as int].path_cost
            <= row[j].path_cost by {
            assert(j == x - 1 || j == x || j == x + 1);
        }
        assert forall|j: int| #[trigger] is_parent(n, x as int, j) && j < r implies row[r as int].path_cost
            < row[j].path_cost by {
            assert(j == x - 1 || j == x || j == x + 1);
        }
        reveal(is_best_parent);
        assert(is_best_parent(row, x as int, r as int));
        lemma_best_parent_unique(row, x as int, r as int);
    }
    r
}

/// Smallest path cost among the parents of `(x, y)`, or 0 in row 0.
fn min_parent_path_cost(grid: &Grid, x: usize, y: usize) -> (r: u128)
    requires
        grid.wf(),
        grid.in_bounds(x as int, y as int),
    ensures
        r == if y == 0 {
            0
        } else {
            min_parent_cost(grid@[y - 1], x as int)
        },
        y > 0 ==> r <= grid@[y - 1][x as int].path_cost,
{
    if y == 0 {
        return 0;
    }
    let k = parent_with_min_path_cost(grid, x, y);
    proof {
        let row = grid@[y - 1];
        assert(row.len() == grid.width_spec());
        assert(is_best_parent(row, x as int, k as int));
        reveal(is_best_parent);
        assert(is_parent(row.len() as int, x as int, x as int));
    }
    grid.get(k, y - 1).path_cost
}

} // verus!
