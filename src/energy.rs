//! The energy of a cell: how much its colour differs from its neighbours'.
//!
//! Neighbours wrap around the image: left of column 0 is the last column,
//! above row 0 the last row. This is the border rule under which the cost
//! tables of known images come out as expected; a border cell is compared
//! with the cell on the opposite edge.
use vstd::prelude::*;
use crate::grid::{Cell, Grid};
use crate::pixel::{square_gradient, square_gradient_spec};

verus! {

/// Largest energy of a cell: a square gradient along each axis.
pub const MAX_ENERGY: u32 = 520200;

/// The colours of a matrix of cells.
pub open spec fn pixels_of(m: Seq<Seq<Cell>>) -> Seq<Seq<[u8; 4]>> {
    m.map_values(|r: Seq<Cell>| r.map_values(|c: Cell| c.pixel))
}

/// The pair of indices whose colours are compared around index `i` of a side
/// of length `n`: the one before and the one after, cyclically.
pub open spec fn neighbour_pair(i: int, n: int) -> (int, int) {
    (if i == 0 {
        n - 1
    } else {
        i - 1
    }, if i == n - 1 {
        0
    } else {
        i + 1
    })
}

/// Energy of the cell at `(x, y)` of a matrix of colours: the square gradient
/// of its horizontal neighbour pair plus that of its vertical pair.
#[verifier::opaque]
pub open spec fn energy_spec(p: Seq<Seq<[u8; 4]>>, x: int, y: int) -> int {
    let (l, r) = neighbour_pair(x, p[0].len() as int);
    let (u, d) = neighbour_pair(y, p.len() as int);
    square_gradient_spec(p[y][l], p[y][r]) + square_gradient_spec(p[u][x], p[d][x])
}

fn neighbours(i: usize, n: usize) -> (r: (usize, usize))
    requires
        i < n,
    ensures
        r.0 == neighbour_pair(i as int, n as int).0,
        r.1 == neighbour_pair(i as int, n as int).1,
        r.0 < n,
        r.1 < n,
{
    let before = if i == 0 {
        n - 1
    } else {
        i - 1
    };
    let after = if i == n - 1 {
        0
    } else {
        i + 1
    };
    (before, after)
}

/// Energy of the cell at `(x, y)` of the grid.
pub fn pixel_energy(grid: &Grid, x: usize, y: usize) -> (r: u32)
    requires
        grid.wf(),
        grid.in_bounds(x as int, y as int),
    ensures
        r == energy_spec(pixels_of(grid@), x as int, y as int),
        r <= MAX_ENERGY,
{
    let w = grid.width();
    let h = grid.height();
    let (l, r) = neighbours(x, w);
    let (u, d) = neighbours(y, h);
    let left = grid.get(l, y);
    let right = grid.get(r, y);
    let up = grid.get(x, u);
    let down = grid.get(x, d);
    let horizontal = square_gradient(&left.pixel, &right.pixel);
    let vertical = square_gradient(&up.pixel, &down.pixel);
    proof {
        reveal(energy_spec);
        let p = pixels_of(grid@);
        assert(grid@[y as int].len() == w);
        assert(grid@[u as int].len() == w);
        assert(grid@[d as int].len() == w);
        assert(p[0].len() == w) by {
            assert(grid@[0].len() == w);
        }
        assert(p[y as int][l as int] == left.pixel);
        assert(p[y as int][r as int] == right.pixel);
        assert(p[u as int][x as int] == up.pixel);
        assert(p[d as int][x as int] == down.pixel);
    }
    horizontal + vertical
}

} // verus!
