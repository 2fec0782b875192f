//! A matrix of energies computed with wrap-around neighbours: the cell left
//! of column 0 is the last column, the cell above row 0 the last row.
use vstd::prelude::*;
use crate::carve::{dimensions_ok, lemma_index_bounds, Image};
use crate::pixel::{square_gradient, square_gradient_spec};

verus! {

/// The colour at `(x, y)` of a row-major buffer `width` wide.
pub open spec fn image_pixel(image: Image, x: int, y: int) -> [u8; 4] {
    image.pixels@[y * image.width + x]
}

/// Energy of `(x, y)` with neighbours taken cyclically: the square gradient
/// between the left and right neighbours plus that between the upper and
/// lower ones.
pub open spec fn wrapped_energy_spec(image: Image, x: int, y: int) -> int {
    let w = image.width as int;
    let h = image.height as int;
    let l = if x == 0 { w - 1 } else { x - 1 };
    let r = (x + 1) % w;
    let u = if y == 0 { h - 1 } else { y - 1 };
    let d = (y + 1) % h;
    square_gradient_spec(image_pixel(image, l, y), image_pixel(image, r, y))
        + square_gradient_spec(image_pixel(image, x, u), image_pixel(image, x, d))
}

/// A rectangular matrix of energies, and the largest of them.
pub struct EnergyGrid {
    rows: Vec<Vec<u32>>,
    darkest_value: u32,
}

impl View for EnergyGrid {
    type V = Seq<Seq<u32>>;

    closed spec fn view(&self) -> Seq<Seq<u32>> {
        self.rows@.map_values(|r: Vec<u32>| r@)
    }
}

fn wrapped_energy(image: &Image, x: usize, y: usize) -> (r: u32)
    requires
        image.valid(),
        dimensions_ok(image.width as int, image.height as int),
        x < image.width,
        y < image.height,
    ensures
        r == wrapped_energy_spec(*image, x as int, y as int),
{
    let n = image.pixels.len();
    let w = image.width;
    let h = image.height;
    let l = if x == 0 { w - 1 } else { x - 1 };
    let r = (x + 1) % w;
    let u = if y == 0 { h - 1 } else { y - 1 };
    let d = (y + 1) % h;
    proof {
        lemma_index_bounds(l as int, y as int, w as int, h as int);
        lemma_index_bounds(r as int, y as int, w as int, h as int);
        lemma_index_bounds(x as int, u as int, w as int, h as int);
        lemma_index_bounds(x as int, d as int, w as int, h as int);
    }
    let left = image.pixels[y * w + l];
    let right = image.pixels[y * w + r];
    let up = image.pixels[u * w + x];
    let down = image.pixels[d * w + x];
    let horizontal = square_gradient(&left, &right);
    let vertical = square_gradient(&up, &down);
    horizontal + vertical
}

impl EnergyGrid {
    /// At least one row and one column, every row as long as the first.
    pub open spec fn wf(&self) -> bool {
        &&& self@.len() >= 1
        &&& self@[0].len() >= 1
        &&& forall|y: int| 0 <= y < self@.len() ==> #[trigger] self@[y].len() == self@[0].len()
    }

    /// The largest energy of the grid.
    pub closed spec fn darkest_spec(&self) -> u32 {
        self.darkest_value
    }

    proof fn lemma_view(&self)
        ensures
            self@.len() == self.rows@.len(),
            forall|y: int| 0 <= y < self.rows@.len() ==> #[trigger] self@[y] == self.rows@[y]@,
    {
    }

    /// The wrap-around energy of every pixel of `image`.
    pub fn from_image(image: &Image) -> (r: EnergyGrid)
        requires
            image.valid(),
            dimensions_ok(image.width as int, image.height as int),
        ensures
            r.wf(),
            r@.len() == image.height,
            r@[0].len() == image.width,
            forall|x: int, y: int|
                0 <= x < image.width && 0 <= y < image.height ==> #[trigger] r@[y][x]
                    == wrapped_energy_spec(*image, x, y),
            forall|x: int, y: int|
                0 <= x < image.width && 0 <= y < image.height ==> #[trigger] r@[y][x]
                    <= r.darkest_spec(),
            r.darkest_spec() == 0 || exists|x: int, y: int|
                0 <= x < image.width && 0 <= y < image.height && #[trigger] r@[y][x]
                    == r.darkest_spec(),
    {
        let mut darkest_value: u32 = 0;
        let mut rows: Vec<Vec<u32>> = Vec::new();
        let mut y: usize = 0;
        while y < image.height
            invariant
                y <= image.height,
                image.valid(),
                dimensions_ok(image.width as int, image.height as int),
                rows@.len() == y,
                forall|j: int| 0 <= j < y ==> (#[trigger] rows@[j])@.len() == image.width,
                forall|x: int, j: int|
                    0 <= x < image.width && 0 <= j < y ==> #[trigger] rows@[j]@[x]
                        == wrapped_energy_spec(*image, x, j),
                forall|x: int, j: int|
                    0 <= x < image.width && 0 <= j < y ==> #[trigger] rows@[j]@[x] <= darkest_value,
                darkest_value == 0 || exists|x: int, j: int|
                    0 <= x < image.width && 0 <= j < y && #[trigger] rows@[j]@[x] == darkest_value,
            decreases image.height - y,
        {
            let mut row: Vec<u32> = Vec::new();
            let mut x: usize = 0;
            let ghost old_darkest = darkest_value;
            while x < image.width
                invariant
                    x <= image.width,
                    y < image.height,
                    image.valid(),
                    dimensions_ok(image.width as int, image.height as int),
                    row@.len() == x,
                    old_darkest <= darkest_value,
                    forall|i: int| 0 <= i < x ==> #[trigger] row@[i] == wrapped_energy_spec(*image, i, y as int),
                    forall|i: int| 0 <= i < x ==> #[trigger] row@[i] <= darkest_value,
                    darkest_value == old_darkest || exists|i: int| 0 <= i < x && #[trigger] row@[i] == darkest_value,
                decreases image.width - x,
            {
                let energy = wrapped_energy(image, x, y);
                let ghost prev_row = row@;
                let ghost prev_darkest = darkest_value;
                if energy > darkest_value {
                    darkest_value = energy;
                }
                row.push(energy);
                proof {
                    if darkest_value == energy {
                        assert(row@[x as int] == darkest_value);
                    } else if darkest_value != old_darkest {
                        let i = choose|i: int| 0 <= i < x && #[trigger] prev_row[i] == prev_darkest;
                        assert(row@[i] == darkest_value);
                    }
                }
                x = x + 1;
            }
            let ghost prev = rows@;
            rows.push(row);
            proof {
                if darkest_value != old_darkest {
                    let i = choose|i: int| 0 <= i < image.width && #[trigger] row@[i] == darkest_value;
                    assert(rows@[y as int]@[i] == darkest_value);
                } else if darkest_value != 0 {
                    let (i, j) = choose|i: int, j: int|
                        0 <= i < image.width && 0 <= j < y && #[trigger] prev[j]@[i] == darkest_value;
                    assert(rows@[j]@[i] == darkest_value);
                }
            }
            y = y + 1;
        }
        let r = EnergyGrid { rows, darkest_value };
        proof {
            r.lemma_view();
            if darkest_value != 0 {
                let (i, j) = choose|i: int, j: int|
                    0 <= i < image.width && 0 <= j < image.height && #[trigger] rows@[j]@[i]
                        == darkest_value;
                assert(r@[j][i] == darkest_value);
            }
        }
        r
    }

    /// Width and height.
    pub fn dimensions(&self) -> (r: (usize, usize))
        requires
            self.wf(),
        ensures
            r.0 == self@[0].len(),
            r.1 == self@.len(),
    {
        proof {
            self.lemma_view();
        }
        let width = self.rows[0].len();
        let height = self.rows.len();
        (width, height)
    }

    /// The energy at `(x, y)`.
    pub fn get(&self, x: usize, y: usize) -> (r: u32)
        requires
            self.wf(),
            y < self@.len(),
            x < self@[0].len(),
        ensures
            r == self@[y as int][x as int],
    {
        proof {
            self.lemma_view();
            assert(self@[y as int].len() == self@[0].len());
        }
        self.rows[y][x]
    }

    /// The largest energy of the grid.
    pub fn darkest_value(&self) -> (r: u32)
        ensures
            r == self.darkest_spec(),
    {
        self.darkest_value
    }

    /// Turns the matrix a quarter turn clockwise: the bottom row becomes the
    /// first column.
    pub fn rotate_clockwise(&mut self)
        requires
            old(self).wf(),
        ensures
            final(self).wf(),
            final(self).darkest_spec() == old(self).darkest_spec(),
            final(self)@ == rotated_clockwise(old(self)@),
    {
        let (w, h) = self.dimensions();
        let ghost m = self@;
        let mut rows: Vec<Vec<u32>> = Vec::new();
        let mut i: usize = 0;
        while i < w
            invariant
                i <= w,
                self.wf(),
                m == self@,
                w == m[0].len(),
                h == m.len(),
                rows@.len() == i,
                forall|k: int| 0 <= k < i ==> (#[trigger] rows@[k])@ == rotated_clockwise(m)[k],
            decreases w - i,
        {
            let mut row: Vec<u32> = Vec::new();
            let mut j: usize = 0;
            while j < h
                invariant
                    i < w,
                    j <= h,
                    self.wf(),
                    m == self@,
                    w == m[0].len(),
                    h == m.len(),
                    row@.len() == j,
                    forall|k: int| 0 <= k < j ==> #[trigger] row@[k] == m[h - 1 - k][i as int],
                decreases h - j,
            {
                let v = self.get(i, h - 1 - j);
                row.push(v);
                j = j + 1;
            }
            proof {
                assert(row@ =~= rotated_clockwise(m)[i as int]);
            }
            rows.push(row);
            i = i + 1;
        }
        self.rows = rows;
        proof {
            self.lemma_view();
            assert(self@ =~= rotated_clockwise(m));
        }
    }

    /// Turns the matrix a quarter turn counterclockwise: the last column
    /// becomes the first row.
    pub fn rotate_counterclockwise(&mut self)
        requires
            old(self).wf(),
        ensures
            final(self).wf(),
            final(self).darkest_spec() == old(self).darkest_spec(),
            final(self)@ == rotated_counterclockwise(old(self)@),
    {
        let (w, h) = self.dimensions();
        let ghost m = self@;
        let mut rows: Vec<Vec<u32>> = Vec::new();
        let mut i: usize = 0;
        while i < w
            invariant
                i <= w,
                self.wf(),
                m == self@,
                w == m[0].len(),
                h == m.len(),
                rows@.len() == i,
                forall|k: int| 0 <= k < i ==> (#[trigger] rows@[k])@ == rotated_counterclockwise(m)[k],
            decreases w - i,
        {
            let mut row: Vec<u32> = Vec::new();
            let mut j: usize = 0;
            while j < h
                invariant
                    i < w,
                    j <= h,
                    self.wf(),
                    m == self@,
                    w == m[0].len(),
                    h == m.len(),
                    row@.len() == j,
                    forall|k: int| 0 <= k < j ==> #[trigger] row@[k] == m[k][w - 1 - i],
                decreases h - j,
            {
                let v = self.get(w - 1 - i, j);
                row.push(v);
                j = j + 1;
            }
            proof {
                assert(row@ =~= rotated_counterclockwise(m)[i as int]);
            }
            rows.push(row);
            i = i + 1;
        }
        self.rows = rows;
        proof {
            self.lemma_view();
            assert(self@ =~= rotated_counterclockwise(m));
        }
    }
}

/// A quarter turn clockwise: row `i` of the result is column `i` of `m`, read
/// from the bottom up.
pub open spec fn rotated_clockwise(m: Seq<Seq<u32>>) -> Seq<Seq<u32>> {
    Seq::new(m[0].len(), |i: int| Seq::new(m.len(), |j: int| m[m.len() - 1 - j][i]))
}

/// A quarter turn counterclockwise: row `i` of the result is column
/// `width - 1 - i` of `m`, read from the top down.
pub open spec fn rotated_counterclockwise(m: Seq<Seq<u32>>) -> Seq<Seq<u32>> {
    Seq::new(m[0].len(), |i: int| Seq::new(m.len(), |j: int| m[j][m[0].len() - 1 - i]))
}

} // verus!
