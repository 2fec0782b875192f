//! A rectangular grid of cells, stored one contiguous buffer per row.
use vstd::prelude::*;

verus! {

/// One position of the grid: its colour, the derived energy and path cost,
/// and where the cell stood before a simulated shrink.
#[derive(Clone, Copy)]
pub struct Cell {
    pub pixel: [u8; 4],
    pub energy: u32,
    pub path_cost: u128,
    pub original_position: (usize, usize),
}

impl Cell {
    /// A cell of the given colour with no derived data yet.
    pub fn from_pixel(pixel: [u8; 4]) -> (r: Cell)
        ensures
            r.pixel == pixel,
            r.energy == 0,
            r.path_cost == 0,
            r.original_position == (0usize, 0usize),
    {
        Cell { pixel, energy: 0, path_cost: 0, original_position: (0, 0) }
    }
}

/// The transpose of a matrix of `w` columns: row `i` of the result is
/// column `i` of `m`.
pub open spec fn transpose(m: Seq<Seq<Cell>>, w: int) -> Seq<Seq<Cell>> {
    Seq::new(w as nat, |i: int| Seq::new(m.len(), |j: int| m[j][i]))
}

/// A matrix with `w` columns in every row.
pub open spec fn rectangular(m: Seq<Seq<Cell>>, w: int) -> bool {
    forall|y: int| 0 <= y < m.len() ==> #[trigger] m[y].len() == w
}

/// Transposing a rectangular matrix of `w` columns twice gives it back.
pub proof fn lemma_transpose_twice(m: Seq<Seq<Cell>>, w: int)
    requires
        0 <= w,
        rectangular(m, w),
    ensures
        transpose(transpose(m, w), m.len() as int) == m,
{
    let t = transpose(transpose(m, w), m.len() as int);
    assert forall|y: int| 0 <= y < m.len() implies #[trigger] t[y] == m[y] by {
        assert(t[y] =~= m[y]);
    }
    assert(t =~= m);
}

/// Transposing a rectangular matrix twice gives it back: rotating a grid
/// twice, with nothing in between, restores its width, height and every
/// cell.
pub proof fn lemma_rotate_twice(g0: Grid, g1: Grid, g2: Grid)
    requires
        g0.wf(),
        g1@ == transpose(g0@, g0.width_spec()),
        g1.wf(),
        g2@ == transpose(g1@, g1.width_spec()),
    ensures
        g2@ == g0@,
        g2.width_spec() == g0.width_spec(),
        g2.height_spec() == g0.height_spec(),
{
    assert forall|y: int| 0 <= y < g0@.len() implies #[trigger] g2@[y] == g0@[y] by {
        assert(g0@[y].len() == g0.width_spec());
        assert(g2@[y] =~= g0@[y]);
    }
    assert(g2@ =~= g0@);
}

/// Row `row` with the cell at column `x` removed and its last cell repeated
/// at the end.
pub open spec fn shifted_left(row: Seq<Cell>, x: int) -> Seq<Cell> {
    Seq::new(row.len(), |k: int| if k < x || k == row.len() - 1 { row[k] } else { row[k + 1] })
}

/// Row `row` with the cell at column `x` repeated and its last cell dropped.
pub open spec fn shifted_right(row: Seq<Cell>, x: int) -> Seq<Cell> {
    Seq::new(row.len(), |k: int| if k <= x { row[k] } else { row[k - 1] })
}

/// A `width` by `height` matrix of cells; every row has the same length.
pub struct Grid {
    rows: Vec<Vec<Cell>>,
}

impl View for Grid {
    type V = Seq<Seq<Cell>>;

    closed spec fn view(&self) -> Seq<Seq<Cell>> {
        self.rows@.map_values(|r: Vec<Cell>| r@)
    }
}

impl Grid {
    /// Number of columns.
    pub open spec fn width_spec(&self) -> int {
        self@[0].len() as int
    }

    /// Number of rows.
    pub open spec fn height_spec(&self) -> int {
        self@.len() as int
    }

    /// At least one row and one column, no jagged rows.
    pub open spec fn wf(&self) -> bool {
        &&& 1 <= self.height_spec() <= usize::MAX
        &&& 1 <= self.width_spec() <= usize::MAX
        &&& rectangular(self@, self.width_spec())
    }

    /// Whether `(x, y)` names a cell of the grid.
    pub open spec fn in_bounds(&self, x: int, y: int) -> bool {
        0 <= x < self.width_spec() && 0 <= y < self.height_spec()
    }

    /// The colour at `(x, y)`.
    pub open spec fn pixel_at(&self, x: int, y: int) -> [u8; 4] {
        self@[y][x].pixel
    }

    proof fn lemma_view(&self)
        ensures
            self@.len() == self.rows@.len(),
            forall|y: int| 0 <= y < self.rows@.len() ==> #[trigger] self@[y] == self.rows@[y]@,
    {
    }

    /// Builds a grid from a row-major buffer of `width * height` colours. Each
    /// cell's original position is its own coordinate.
    pub fn from_pixels(width: usize, height: usize, pixels: &Vec<[u8; 4]>) -> (r: Grid)
        requires
            1 <= width,
            1 <= height,
            pixels@.len() == width * height,
        ensures
            r.wf(),
            r.width_spec() == width,
            r.height_spec() == height,
            forall|x: int, y: int|
                0 <= x < width && 0 <= y < height ==> (#[trigger] r@[y][x]).pixel == pixels@[y
                    * width + x] && r@[y][x].original_position == (x as usize, y as usize),
    {
        let n = pixels.len();
        let mut rows: Vec<Vec<Cell>> = Vec::new();
        let mut y: usize = 0;
        let mut base: usize = 0;
        while y < height
            invariant
                y <= height,
                pixels@.len() == width * height,
                n == pixels@.len(),
                base == y * width,
                rows@.len() == y,
                forall|j: int| 0 <= j < y ==> (#[trigger] rows@[j])@.len() == width,
                forall|x: int, j: int|
                    0 <= x < width && 0 <= j < y ==> (#[trigger] rows@[j]@[x]).pixel == pixels@[j
                        * width + x] && rows@[j]@[x].original_position == (x as usize, j as usize),
            decreases height - y,
        {
            proof {
                assert((y + 1) * width <= height * width) by (nonlinear_arith)
                    requires
                        y < height,
                ;
                assert((y + 1) * width == y * width + width) by (nonlinear_arith);
            }
            let mut row: Vec<Cell> = Vec::new();
            let mut x: usize = 0;
            while x < width
                invariant
                    x <= width,
                    y < height,
                    pixels@.len() == width * height,
                    n == pixels@.len(),
                    base == y * width,
                    base + width <= width * height,
                    row@.len() == x,
                    forall|i: int|
                        0 <= i < x ==> (#[trigger] row@[i]).pixel == pixels@[y * width + i]
                            && row@[i].original_position == (i as usize, y),
                decreases width - x,
            {
                let mut cell = Cell::from_pixel(pixels[base + x]);
                cell.original_position = (x, y);
                row.push(cell);
                x = x + 1;
            }
            rows.push(row);
            base = base + width;
            y = y + 1;
            proof {
                assert(base == y * width) by (nonlinear_arith)
                    requires
                        base == (y - 1) * width + width,
                ;
            }
        }
        let r = Grid { rows };
        proof {
            r.lemma_view();
        }
        r
    }

    /// Number of columns.
    pub fn width(&self) -> (r: usize)
        requires
            self.wf(),
        ensures
            r == self.width_spec(),
    {
        proof {
            self.lemma_view();
        }
        self.rows[0].len()
    }

    /// Number of rows.
    pub fn height(&self) -> (r: usize)
        requires
            self.wf(),
        ensures
            r == self.height_spec(),
    {
        proof {
            self.lemma_view();
        }
        self.rows.len()
    }

    /// The cell at `(x, y)`.
    pub fn get(&self, x: usize, y: usize) -> (r: Cell)
        requires
            self.wf(),
            self.in_bounds(x as int, y as int),
        ensures
            r == self@[y as int][x as int],
    {
        proof {
            self.lemma_view();
            assert(self@[y as int].len() == self.width_spec());
        }
        self.rows[y][x]
    }

    /// Replaces the cell at `(x, y)`.
    pub fn set(&mut self, x: usize, y: usize, c: Cell)
        requires
            old(self).wf(),
            old(self).in_bounds(x as int, y as int),
        ensures
            final(self)@ == old(self)@.update(y as int, old(self)@[y as int].update(x as int, c)),
            final(self).wf(),
    {
        let mut row = self.take_row(y);
        row.set(x, c);
        self.put_row(y, row);
        proof {
            assert(self@ =~= old(self)@.update(y as int, old(self)@[y as int].update(x as int, c)));
        }
    }

    /// Within row `y`, moves every cell right of column `x` one place left,
    /// closing the gap at `x`; the last cell of the row keeps its value.
    pub fn shift_row_left_from_point(&mut self, x: usize, y: usize)
        requires
            old(self).wf(),
            old(self).in_bounds(x as int, y as int),
        ensures
            final(self).wf(),
            final(self).width_spec() == old(self).width_spec(),
            final(self)@ == old(self)@.update(
                y as int,
                shifted_left(old(self)@[y as int], x as int),
            ),
    {
        let ghost old_row = old(self)@[y as int];
        let mut row = self.take_row(y);
        let w = row.len();
        let mut i: usize = x;
        while i + 1 < w
            invariant
                x <= i < w,
                w == old_row.len(),
                row@.len() == w,
                forall|k: int| 0 <= k < i ==> #[trigger] row@[k] == shifted_left(old_row, x as int)[k],
                forall|k: int| i <= k < w ==> #[trigger] row@[k] == old_row[k],
            decreases w - i,
        {
            let c = row[i + 1];
            row.set(i, c);
            i = i + 1;
        }
        self.put_row(y, row);
        proof {
            assert(row@ =~= shifted_left(old_row, x as int));
            assert(self@ =~= old(self)@.update(y as int, shifted_left(old_row, x as int)));
            assert forall|j: int| 0 <= j < self@.len() implies #[trigger] self@[j].len()
                == self.width_spec() by {
                assert(old(self)@[j].len() == old(self).width_spec());
                assert(old(self)@[0].len() == old(self).width_spec());
            }
        }
    }

    /// Within row `y`, moves every cell from column `x` on one place right;
    /// the cell at `x` is then also at `x + 1`, and the last cell of the row
    /// drops out.
    pub fn shift_row_right_from_point(&mut self, x: usize, y: usize)
        requires
            old(self).wf(),
            old(self).in_bounds(x as int, y as int),
        ensures
            final(self).wf(),
            final(self).width_spec() == old(self).width_spec(),
            final(self)@ == old(self)@.update(
                y as int,
                shifted_right(old(self)@[y as int], x as int),
            ),
    {
        let ghost old_row = old(self)@[y as int];
        let mut row = self.take_row(y);
        let w = row.len();
        let mut i: usize = w - 1;
        while i > x
            invariant
                x <= i < w,
                w == old_row.len(),
                row@.len() == w,
                forall|k: int| i < k < w ==> #[trigger] row@[k] == shifted_right(old_row, x as int)[k],
                forall|k: int| 0 <= k <= i ==> #[trigger] row@[k] == old_row[k],
            decreases i,
        {
            let c = row[i - 1];
            row.set(i, c);
            i = i - 1;
        }
        self.put_row(y, row);
        proof {
            assert(row@ =~= shifted_right(old_row, x as int));
            assert(self@ =~= old(self)@.update(y as int, shifted_right(old_row, x as int)));
            assert forall|j: int| 0 <= j < self@.len() implies #[trigger] self@[j].len()
                == self.width_spec() by {
                assert(old(self)@[j].len() == old(self).width_spec());
                assert(old(self)@[0].len() == old(self).width_spec());
            }
        }
    }

    /// Widens the grid by one column: each row repeats its last cell.
    pub fn append_column(&mut self)
        requires
            old(self).wf(),
            old(self).width_spec() < usize::MAX,
        ensures
            final(self).wf(),
            final(self).height_spec() == old(self).height_spec(),
            final(self).width_spec() == old(self).width_spec() + 1,
            forall|y: int|
                0 <= y < old(self).height_spec() ==> #[trigger] final(self)@[y] == old(self)@[y].push(
                    old(self)@[y].last(),
                ),
    {
        let h = self.height();
        let mut y: usize = 0;
        while y < h
            invariant
                y <= h,
                h == old(self)@.len(),
                self@.len() == h,
                old(self).wf(),
                forall|j: int| 0 <= j < y ==> #[trigger] self@[j] == old(self)@[j].push(old(self)@[j].last()),
                forall|j: int| y <= j < h ==> #[trigger] self@[j] == old(self)@[j],
            decreases h - y,
        {
            let mut row = self.take_row(y);
            proof {
                assert(old(self)@[y as int].len() == old(self).width_spec());
            }
            let last = row[row.len() - 1];
            row.push(last);
            self.put_row(y, row);
            y = y + 1;
        }
        proof {
            assert forall|j: int| 0 <= j < self@.len() implies #[trigger] self@[j].len()
                == self.width_spec() by {
                assert(old(self)@[j].len() == old(self).width_spec());
            }
        }
    }

    /// Narrows the grid by one column: each row drops its last cell.
    pub fn remove_last_column(&mut self)
        requires
            old(self).wf(),
            old(self).width_spec() >= 2,
        ensures
            final(self).wf(),
            final(self).height_spec() == old(self).height_spec(),
            final(self).width_spec() == old(self).width_spec() - 1,
            forall|y: int|
                0 <= y < old(self).height_spec() ==> #[trigger] final(self)@[y] == old(self)@[y].drop_last(),
    {
        let h = self.height();
        let mut y: usize = 0;
        while y < h
            invariant
                y <= h,
                h == old(self)@.len(),
                self@.len() == h,
                old(self).wf(),
                old(self).width_spec() >= 2,
                forall|j: int| 0 <= j < y ==> #[trigger] self@[j] == old(self)@[j].drop_last(),
                forall|j: int| y <= j < h ==> #[trigger] self@[j] == old(self)@[j],
            decreases h - y,
        {
            let mut row = self.take_row(y);
            proof {
                assert(old(self)@[y as int].len() == old(self).width_spec());
            }
            row.pop();
            proof {
                assert(row@ =~= old(self)@[y as int].drop_last());
            }
            self.put_row(y, row);
            y = y + 1;
        }
        proof {
            assert forall|j: int| 0 <= j < self@.len() implies #[trigger] self@[j].len()
                == self.width_spec() by {
                assert(old(self)@[j].len() == old(self).width_spec());
            }
        }
    }

    /// Transposes the grid: the cell at `(x, y)` moves to `(y, x)`, and width
    /// and height swap.
    pub fn rotate(&mut self)
        requires
            old(self).wf(),
        ensures
            final(self).wf(),
            final(self).width_spec() == old(self).height_spec(),
            final(self).height_spec() == old(self).width_spec(),
            final(self)@ == transpose(old(self)@, old(self).width_spec()),
    {
        let w = self.width();
        let h = self.height();
        let ghost m = self@;
        proof {
            self.lemma_view();
        }
        let mut rows: Vec<Vec<Cell>> = Vec::new();
        let mut i: usize = 0;
        while i < w
            invariant
                i <= w,
                w == self.width_spec(),
                h == self.height_spec(),
                m == self@,
                self.wf(),
                rows@.len() == i,
                forall|k: int| 0 <= k < i ==> (#[trigger] rows@[k])@ == transpose(m, w as int)[k],
            decreases w - i,
        {
            let mut row: Vec<Cell> = Vec::new();
            let mut j: usize = 0;
            while j < h
                invariant
                    i < w,
                    j <= h,
                    w == self.width_spec(),
                    h == self.height_spec(),
                    m == self@,
                    self.wf(),
                    row@.len() == j,
                    forall|k: int| 0 <= k < j ==> #[trigger] row@[k] == m[k][i as int],
                decreases h - j,
            {
                let c = self.get(i, j);
                row.push(c);
                j = j + 1;
            }
            proof {
                assert(row@ =~= transpose(m, w as int)[i as int]);
            }
            rows.push(row);
            i = i + 1;
        }
        self.rows = rows;
        proof {
            self.lemma_view();
            assert(self@ =~= transpose(m, w as int));
        }
    }

    /// Tags every cell with its own coordinate as its original position,
    /// changing nothing else.
    pub fn reset_positions(&mut self)
        requires
            old(self).wf(),
        ensures
            final(self).wf(),
            final(self).width_spec() == old(self).width_spec(),
            final(self).height_spec() == old(self).height_spec(),
            forall|x: int, y: int|
                old(self).in_bounds(x, y) ==> #[trigger] final(self)@[y][x] == (Cell {
                    original_position: (x as usize, y as usize),
                    ..old(self)@[y][x]
                }),
    {
        let h = self.height();
        let w = self.width();
        let mut y: usize = 0;
        while y < h
            invariant
                y <= h,
                h == old(self)@.len(),
                w == old(self).width_spec(),
                self@.len() == h,
                old(self).wf(),
                forall|j: int| 0 <= j < h ==> (#[trigger] self@[j]).len() == w,
                forall|x: int, j: int|
                    0 <= x < w && 0 <= j < y ==> #[trigger] self@[j][x] == (Cell {
                        original_position: (x as usize, j as usize),
                        ..old(self)@[j][x]
                    }),
                forall|j: int| y <= j < h ==> #[trigger] self@[j] == old(self)@[j],
            decreases h - y,
        {
            let mut row = self.take_row(y);
            proof {
                assert(old(self)@[y as int].len() == w);
            }
            let mut x: usize = 0;
            while x < w
                invariant
                    x <= w,
                    y < h,
                    row@.len() == w,
                    forall|i: int| 0 <= i < x ==> #[trigger] row@[i] == (Cell {
                        original_position: (i as usize, y),
                        ..old(self)@[y as int][i]
                    }),
                    forall|i: int| x <= i < w ==> #[trigger] row@[i] == old(self)@[y as int][i],
                decreases w - x,
            {
                let mut c = row[x];
                c.original_position = (x, y);
                row.set(x, c);
                x = x + 1;
            }
            self.put_row(y, row);
            y = y + 1;
        }
    }

    /// The colours of the grid in row-major order.
    pub fn to_pixels(&self) -> (r: Vec<[u8; 4]>)
        requires
            self.wf(),
        ensures
            r@.len() == self.width_spec() * self.height_spec(),
            forall|x: int, y: int|
                self.in_bounds(x, y) ==> #[trigger] r@[y * self.width_spec() + x] == self.pixel_at(
                    x,
                    y,
                ),
    {
        let w = self.width();
        let h = self.height();
        let mut r: Vec<[u8; 4]> = Vec::new();
        let mut y: usize = 0;
        while y < h
            invariant
                y <= h,
                w == self.width_spec(),
                h == self.height_spec(),
                self.wf(),
                r@.len() == y * w,
                forall|x: int, j: int|
                    0 <= x < w && 0 <= j < y ==> #[trigger] r@[j * w + x] == self.pixel_at(x, j),
            decreases h - y,
        {
            let mut x: usize = 0;
            while x < w
                invariant
                    x <= w,
                    y < h,
                    w == self.width_spec(),
                    h == self.height_spec(),
                    self.wf(),
                    r@.len() == y * w + x,
                    forall|i: int, j: int|
                        0 <= i < w && 0 <= j < y ==> #[trigger] r@[j * w + i] == self.pixel_at(i, j),
                    forall|i: int| 0 <= i < x ==> #[trigger] r@[y * w + i] == self.pixel_at(i, y as int),
                decreases w - x,
            {
                let c = self.get(x, y);
                let ghost before = r@;
                r.push(c.pixel);
                proof {
                    assert forall|i: int, j: int| 0 <= i < w && 0 <= j < y implies #[trigger] r@[j
                        * w + i] == self.pixel_at(i, j) by {
                        assert(j * w + i < (j + 1) * w) by (nonlinear_arith)
                            requires
                                i < w,
                        ;
                        assert((j + 1) * w <= y * w) by (nonlinear_arith)
                            requires
                                j + 1 <= y,
                                w >= 0,
                        ;
                        assert(r@[j * w + i] == before[j * w + i]);
                    }
                }
                x = x + 1;
            }
            proof {
                assert((y + 1) * w == y * w + w) by (nonlinear_arith);
            }
            y = y + 1;
        }
        proof {
            assert(h * w == w * h) by (nonlinear_arith);
        }
        r
    }

    /// A deep, independent copy of the grid.
    pub fn copy(&self) -> (r: Grid)
        ensures
            r@ == self@,
    {
        proof {
            self.lemma_view();
        }
        let mut rows: Vec<Vec<Cell>> = Vec::new();
        let mut y: usize = 0;
        while y < self.rows.len()
            invariant
                y <= self.rows@.len(),
                self@.len() == self.rows@.len(),
                forall|j: int| 0 <= j < self.rows@.len() ==> #[trigger] self@[j] == self.rows@[j]@,
                rows@.len() == y,
                forall|j: int| 0 <= j < y ==> (#[trigger] rows@[j])@ == self@[j],
            decreases self.rows@.len() - y,
        {
            let src = &self.rows[y];
            let mut row: Vec<Cell> = Vec::new();
            let mut x: usize = 0;
            while x < src.len()
                invariant
                    x <= src@.len(),
                    row@.len() == x,
                    forall|i: int| 0 <= i < x ==> #[trigger] row@[i] == src@[i],
                decreases src@.len() - x,
            {
                row.push(src[x]);
                x = x + 1;
            }
            proof {
                assert(row@ =~= src@);
            }
            rows.push(row);
            y = y + 1;
        }
        let r = Grid { rows };
        proof {
            r.lemma_view();
            assert(r@ =~= self@);
        }
        r
    }

    /// Moves row `y` out, leaving an empty row in its place.
    fn take_row(&mut self, y: usize) -> (r: Vec<Cell>)
        requires
            y < old(self)@.len(),
        ensures
            r@ == old(self)@[y as int],
            final(self)@ == old(self)@.update(y as int, Seq::empty()),
    {
        proof {
            self.lemma_view();
        }
        let mut r: Vec<Cell> = Vec::new();
        self.rows.set_and_swap(y, &mut r);
        proof {
            assert(self@ =~= old(self)@.update(y as int, Seq::empty()));
        }
        r
    }

    /// Puts `row` in as row `y`.
    fn put_row(&mut self, y: usize, row: Vec<Cell>)
        requires
            y < old(self)@.len(),
        ensures
            final(self)@ == old(self)@.update(y as int, row@),
    {
        proof {
            self.lemma_view();
        }
        let ghost row_view = row@;
        self.rows.set(y, row);
        proof {
            assert(self@ =~= old(self)@.update(y as int, row_view));
        }
    }
}

} // verus!
