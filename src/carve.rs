//! Shrinking and growing an image by seams, in either orientation.
use vstd::prelude::*;
use crate::grid::{lemma_transpose_twice, shifted_right, transpose, Cell, Grid};
use crate::pixel::{average_pixels, channel_average};
use crate::energy::pixels_of;
use crate::seam::{calculate_energy, costs_valid, find_path, get_path_start, is_connected_seam, is_leftmost_min, is_seam_from, is_walk_from, walk_energy};

verus! {

/// A decoded image: `width * height` colours in row-major order.
pub struct Image {
    pub width: usize,
    pub height: usize,
    pub pixels: Vec<[u8; 4]>,
}

impl Image {
    /// The buffer holds exactly one colour per position.
    pub open spec fn valid(&self) -> bool {
        self.pixels@.len() == self.width * self.height
    }
}

/// Why a resize or the construction of a carver was refused.
#[derive(Clone, Copy, Debug, PartialEq, Eq, Structural)]
pub enum CarveError {
    /// A width or height of zero, or a buffer
    /// whose length is not width times height.
    InvalidDimensions,
}

/// Whether an image of these dimensions can be carved.
pub open spec fn dimensions_ok(width: int, height: int) -> bool {
    1 <= width && 1 <= height
}

/// Every cell's original position lies within a `w` by `h` grid.
pub open spec fn positions_within(g: Grid, w: int, h: int) -> bool {
    forall|x: int, y: int|
        g.in_bounds(x, y) ==> (#[trigger] g@[y][x]).original_position.0 < w
            && g@[y][x].original_position.1 < h
}

/// Every point lies within a `w` by `h` grid.
pub open spec fn points_within(s: Seq<(usize, usize)>, w: int, h: int) -> bool {
    forall|i: int| 0 <= i < s.len() ==> (#[trigger] s[i]).0 < w && s[i].1 < h
}

/// `s` names one cell of each row of `g`, from the last row up to row 0.
pub open spec fn one_point_per_row(g: Grid, s: Seq<(usize, usize)>) -> bool {
    &&& s.len() == g.height_spec()
    &&& forall|i: int|
        0 <= i < s.len() ==> (#[trigger] s[i]).1 == g.height_spec() - 1 - i && s[i].0
            < g.width_spec()
}

/// The matrix `m` after removing, in each row, the cell that the seam `s`
/// names for that row.
pub open spec fn seam_removed(m: Seq<Seq<Cell>>, s: Seq<(usize, usize)>) -> Seq<Seq<Cell>> {
    Seq::new(m.len(), |y: int| m[y].remove(s[m.len() - 1 - y].0 as int))
}

/// The points of `p` in column `c`, in their order in `p`.
pub open spec fn column_points(p: Seq<(usize, usize)>, c: int) -> Seq<(usize, usize)>
    decreases p.len(),
{
    if p.len() == 0 {
        Seq::empty()
    } else {
        let rest = column_points(p.drop_last(), c);
        if p.last().0 == c {
            rest.push(p.last())
        } else {
            rest
        }
    }
}

/// The points of `p` in columns `lo` to `hi - 1`, by descending column; the
/// points of one column keep their order in `p`.
pub open spec fn by_column_desc(p: Seq<(usize, usize)>, hi: int, lo: int) -> Seq<(usize, usize)>
    decreases hi - lo,
{
    if lo >= hi {
        Seq::empty()
    } else {
        by_column_desc(p, hi, lo + 1) + column_points(p, lo)
    }
}

proof fn lemma_column_points_within(p: Seq<(usize, usize)>, c: int, w: int, h: int)
    requires
        points_within(p, w, h),
    ensures
        points_within(column_points(p, c), w, h),
    decreases p.len(),
{
    if p.len() > 0 {
        lemma_column_points_within(p.drop_last(), c, w, h);
    }
}

proof fn lemma_by_column_desc_within(p: Seq<(usize, usize)>, hi: int, lo: int, w: int, h: int)
    requires
        points_within(p, w, h),
    ensures
        points_within(by_column_desc(p, hi, lo), w, h),
    decreases hi - lo,
{
    if lo < hi {
        lemma_by_column_desc_within(p, hi, lo + 1, w, h);
        lemma_column_points_within(p, lo, w, h);
        let a = by_column_desc(p, hi, lo + 1);
        let b = column_points(p, lo);
        assert forall|i: int| 0 <= i < a.len() + b.len() implies (#[trigger] (a + b)[i]).0 < w && (a
            + b)[i].1 < h by {
            if i >= a.len() {
                assert((a + b)[i] == b[i - a.len()]);
            }
        }
    }
}

proof fn lemma_by_column_desc_push(q: Seq<(usize, usize)>, p: (usize, usize), hi: int, lo: int)
    ensures
        by_column_desc(q.push(p), hi, lo).len() == by_column_desc(q, hi, lo).len() + if lo <= p.0
            < hi {
            1int
        } else {
            0int
        },
    decreases hi - lo,
{
    if lo < hi {
        lemma_by_column_desc_push(q, p, hi, lo + 1);
        assert(q.push(p).drop_last() =~= q);
    }
}

/// Ordering points by descending column keeps every point whose column lies
/// in `lo..hi`.
proof fn lemma_by_column_desc_len(q: Seq<(usize, usize)>, hi: int, lo: int)
    requires
        forall|i: int| 0 <= i < q.len() ==> lo <= (#[trigger] q[i]).0 < hi,
    ensures
        by_column_desc(q, hi, lo).len() == q.len(),
    decreases q.len(),
{
    if q.len() > 0 {
        let r = q.drop_last();
        assert(r.push(q.last()) =~= q);
        assert forall|i: int| 0 <= i < r.len() implies lo <= (#[trigger] r[i]).0 < hi by {
            assert(r[i] == q[i]);
        }
        lemma_by_column_desc_len(r, hi, lo);
        lemma_by_column_desc_push(r, q.last(), hi, lo);
        assert(lo <= q[q.len() - 1].0 < hi);
    } else {
        lemma_by_column_desc_empty(q, hi, lo);
    }
}

proof fn lemma_by_column_desc_empty(q: Seq<(usize, usize)>, hi: int, lo: int)
    requires
        q.len() == 0,
    ensures
        by_column_desc(q, hi, lo).len() == 0,
    decreases hi - lo,
{
    if lo < hi {
        lemma_by_column_desc_empty(q, hi, lo + 1);
    }
}

/// The points of `points` with a column below `width`, by descending column,
/// so that inserting at them in this order never moves a later target.
fn sort_by_column_desc(points: &Vec<(usize, usize)>, width: usize) -> (r: Vec<(usize, usize)>)
    ensures
        r@ == by_column_desc(points@, width as int, 0),
{
    let mut r: Vec<(usize, usize)> = Vec::new();
    let mut c: usize = width;
    while c > 0
        invariant
            c <= width,
            r@ == by_column_desc(points@, width as int, c as int),
        decreases c,
    {
        let col = c - 1;
        let ghost prefix = r@;
        let mut i: usize = 0;
        while i < points.len()
            invariant
                i <= points@.len(),
                r@ == prefix + column_points(points@.subrange(0, i as int), col as int),
            decreases points@.len() - i,
        {
            let ghost sub = points@.subrange(0, i as int + 1);
            proof {
                assert(sub.drop_last() =~= points@.subrange(0, i as int));
            }
            if points[i].0 == col {
                r.push(points[i]);
                proof {
                    assert(r@ =~= prefix + column_points(sub, col as int));
                }
            }
            i = i + 1;
        }
        proof {
            assert(points@.subrange(0, points@.len() as int) =~= points@);
        }
        c = col;
    }
    r
}

/// What `resize(width, height)` on carver `c0` leaves: the carver `c1` and
/// the result `r`. The horizontal phase takes the grid to some `mid`; the
/// vertical phase takes the transpose of `mid` to the transpose of the
/// final grid.
pub open spec fn resized(
    c0: Carver,
    width: int,
    height: int,
    c1: Carver,
    r: Result<Image, CarveError>,
) -> bool {
    &&& r is Err <==> !dimensions_ok(width, height)
    &&& r is Err ==> r == Err::<Image, CarveError>(CarveError::InvalidDimensions) && c1 == c0
    &&& r matches Ok(img) ==> {
        &&& c1.wf()
        &&& img.valid()
        &&& img.width == width
        &&& img.height == height
        &&& c1.grid_spec().width_spec() == width
        &&& c1.grid_spec().height_spec() == height
        &&& forall|x: int, y: int|
            c1.grid_spec().in_bounds(x, y) ==> #[trigger] img.pixels@[y * width + x]
                == c1.grid_spec().pixel_at(x, y)
        &&& (width == c0.grid_spec().width_spec() && height == c0.grid_spec().height_spec())
            ==> c1.grid_spec()@ == c0.grid_spec()@
        &&& exists|mid: Seq<Seq<Cell>>, q1: Seq<(usize, usize)>, q2: Seq<(usize, usize)>|
            #[trigger] two_phases(
                c0.grid_spec()@,
                mid,
                c1.grid_spec()@,
                width,
                height,
                q1,
                q2,
                c1.points_spec(),
            )
    }
}

/// A resize to `width` by `height` took `m0` to `mid` horizontally, touching
/// the points `q1`, then the transpose of `mid` to the transpose of `m1`,
/// touching the points `q2` of the transposed grid; `points` lists `q1`,
/// then `q2` with each point's coordinates swapped back.
pub open spec fn two_phases(
    m0: Seq<Seq<Cell>>,
    mid: Seq<Seq<Cell>>,
    m1: Seq<Seq<Cell>>,
    width: int,
    height: int,
    q1: Seq<(usize, usize)>,
    q2: Seq<(usize, usize)>,
    points: Seq<(usize, usize)>,
) -> bool {
    &&& phase_done(m0, mid, width, q1)
    &&& phase_done(transpose(mid, width), transpose(m1, width), height, q2)
    &&& points == q1 + swapped(q2)
}

/// Each point with its coordinates swapped.
pub open spec fn swapped(q: Seq<(usize, usize)>) -> Seq<(usize, usize)> {
    Seq::new(q.len(), |i: int| (q[i].1, q[i].0))
}

/// One phase of a resize took `m0` to `m1`, `target` columns wide, by the
/// seam logic, touching the points `q`: unchanged and nothing touched where
/// the width is kept; where it shrinks, its cheapest seams removed one after
/// another, `q` the removed cells' positions in `m0`; where it grows, averaged
/// cells inserted round after round, `q` the points inserted at.
pub open spec fn phase_done(
    m0: Seq<Seq<Cell>>,
    m1: Seq<Seq<Cell>>,
    target: int,
    q: Seq<(usize, usize)>,
) -> bool {
    let w0 = m0[0].len() as int;
    &&& target == w0 ==> m1 == m0 && q.len() == 0
    &&& target < w0 ==> carved(pixels_of(m0), pixels_of(m1), (w0 - target) as nat)
        && shrunk_with_records(with_own_positions(m0), m1, (w0 - target) as nat, q)
    &&& target > w0 ==> grown_in_rounds(m0, m1, (target - w0) as nat, q)
}

/// Tagging every cell with its own coordinate gives `with_own_positions`.
proof fn lemma_own_positions(g0: Grid, g1: Grid)
    requires
        g0.wf(),
        g1.wf(),
        g1.width_spec() == g0.width_spec(),
        g1.height_spec() == g0.height_spec(),
        forall|x: int, y: int|
            g0.in_bounds(x, y) ==> #[trigger] g1@[y][x] == (Cell {
                original_position: (x as usize, y as usize),
                ..g0@[y][x]
            }),
    ensures
        g1@ == with_own_positions(g0@),
{
    assert forall|y: int| 0 <= y < g0@.len() implies #[trigger] g1@[y] =~= with_own_positions(
        g0@,
    )[y] by {
        assert(g0@[y].len() == g0.width_spec());
        assert(g1@[y].len() == g0.width_spec());
        assert forall|x: int| 0 <= x < g0.width_spec() implies g1@[y][x] == with_own_positions(
            g0@,
        )[y][x] by {
            assert(g0.in_bounds(x, y));
        }
    }
    assert(g1@ =~= with_own_positions(g0@));
}

/// Shrinking by `d` columns and then growing by `d` columns gives back an
/// image of the original dimensions.
pub proof fn lemma_shrink_then_grow_dimensions(
    c0: Carver,
    c1: Carver,
    c2: Carver,
    r1: Result<Image, CarveError>,
    r2: Result<Image, CarveError>,
    d: int,
)
    requires
        c0.wf(),
        0 <= d < c0.grid_spec().width_spec(),
        resized(c0, c0.grid_spec().width_spec() - d, c0.grid_spec().height_spec(), c1, r1),
        resized(c1, c0.grid_spec().width_spec(), c0.grid_spec().height_spec(), c2, r2),
    ensures
        r1 is Ok,
        r2 matches Ok(img) && img.width == c0.grid_spec().width_spec() && img.height
            == c0.grid_spec().height_spec(),
{
}

/// Growing by `d` columns gives an image exactly `d` columns wider, of the
/// same height, whatever its colours.
pub proof fn lemma_grow_width(c0: Carver, c1: Carver, r: Result<Image, CarveError>, d: int)
    requires
        c0.wf(),
        0 <= d,
        c0.grid_spec().width_spec() + d <= usize::MAX,
        resized(c0, c0.grid_spec().width_spec() + d, c0.grid_spec().height_spec(), c1, r),
    ensures
        r matches Ok(img) && img.width == c0.grid_spec().width_spec() + d && img.height
            == c0.grid_spec().height_spec(),
{
}

/// `gc` is the grid of colours `p0` after a full cost pass, `s` its cheapest
/// seam, and `p1` the colours left once that seam is removed.
#[verifier::opaque]
pub open spec fn carve_witness(
    gc: Grid,
    s: Seq<(usize, usize)>,
    p0: Seq<Seq<[u8; 4]>>,
    p1: Seq<Seq<[u8; 4]>>,
) -> bool {
    &&& gc.wf()
    &&& pixels_of(gc@) == p0
    &&& costs_valid(gc)
    &&& is_leftmost_min(gc@[gc.height_spec() - 1], s[0].0 as int)
    &&& is_seam_from(gc, s[0].0 as int, s)
    &&& p1 == pixels_of(seam_removed(gc@, s))
}

/// `p1` is `p0` with its cheapest seam removed.
pub open spec fn carved_once(p0: Seq<Seq<[u8; 4]>>, p1: Seq<Seq<[u8; 4]>>) -> bool {
    exists|gc: Grid, s: Seq<(usize, usize)>| #[trigger] carve_witness(gc, s, p0, p1)
}

/// `chain` runs from its first to its last grid of colours by removals of
/// the cheapest seam, each computed on what the previous one left.
pub open spec fn carving_chain(chain: Seq<Seq<Seq<[u8; 4]>>>) -> bool {
    forall|i: int| 0 <= i < chain.len() - 1 ==> carved_once(#[trigger] chain[i], chain[i + 1])
}

/// `p1` is `p0` after `d` removals of the cheapest seam, each computed on
/// what the previous one left.
#[verifier::opaque]
pub open spec fn carved(p0: Seq<Seq<[u8; 4]>>, p1: Seq<Seq<[u8; 4]>>, d: nat) -> bool {
    exists|chain: Seq<Seq<Seq<[u8; 4]>>>|
        #[trigger] carving_chain(chain) && chain.len() == d + 1 && chain[0] == p0 && chain[d as int]
            == p1
}

/// The original positions of the cells of a matrix.
pub open spec fn tags_of(m: Seq<Seq<Cell>>) -> Seq<Seq<(usize, usize)>> {
    m.map_values(|r: Seq<Cell>| r.map_values(|c: Cell| c.original_position))
}

/// The original positions of the cells of `m` that the seam `s` names.
pub open spec fn seam_tags(m: Seq<Seq<Cell>>, s: Seq<(usize, usize)>) -> Seq<(usize, usize)> {
    Seq::new(s.len(), |i: int| m[s[i].1 as int][s[i].0 as int].original_position)
}

/// `gc` is `g0` after a full cost pass, `s` its cheapest seam, `g1` what is
/// left once the seam is removed, and `t` the original positions of the
/// removed cells, bottom row first.
#[verifier::opaque]
pub open spec fn removal_witness(
    gc: Grid,
    s: Seq<(usize, usize)>,
    g0: Seq<Seq<Cell>>,
    g1: Seq<Seq<Cell>>,
    t: Seq<(usize, usize)>,
) -> bool {
    &&& gc.wf()
    &&& pixels_of(gc@) == pixels_of(g0)
    &&& tags_of(gc@) == tags_of(g0)
    &&& costs_valid(gc)
    &&& is_leftmost_min(gc@[gc.height_spec() - 1], s[0].0 as int)
    &&& is_seam_from(gc, s[0].0 as int, s)
    &&& g1 == seam_removed(gc@, s)
    &&& t == seam_tags(gc@, s)
}

/// `g1` is `g0` with its cheapest seam removed; `t` are the original
/// positions of the removed cells.
pub open spec fn removal_step(g0: Seq<Seq<Cell>>, g1: Seq<Seq<Cell>>, t: Seq<(usize, usize)>) -> bool {
    exists|gc: Grid, s: Seq<(usize, usize)>| #[trigger] removal_witness(gc, s, g0, g1, t)
}

/// Each grid of `gs` is the previous one with its cheapest seam removed;
/// `ts[k]` are the original positions removed by step `k`.
pub open spec fn removal_chain(gs: Seq<Seq<Seq<Cell>>>, ts: Seq<Seq<(usize, usize)>>) -> bool {
    &&& gs.len() == ts.len() + 1
    &&& forall|k: int| 0 <= k < ts.len() ==> removal_step(#[trigger] gs[k], gs[k + 1], ts[k])
}

/// Removing the cheapest seam `d` times, one after another, takes `g0` to
/// `g1` and removes cells with the original positions `q`, in that order.
#[verifier::opaque]
pub open spec fn shrunk_with_records(
    g0: Seq<Seq<Cell>>,
    g1: Seq<Seq<Cell>>,
    d: nat,
    q: Seq<(usize, usize)>,
) -> bool {
    exists|gs: Seq<Seq<Seq<Cell>>>, ts: Seq<Seq<(usize, usize)>>|
        #[trigger] removal_chain(gs, ts) && ts.len() == d && gs[0] == g0 && gs[d as int] == g1 && q
            == ts.flatten()
}

/// `m` with every cell tagged with its own coordinate as original position.
pub open spec fn with_own_positions(m: Seq<Seq<Cell>>) -> Seq<Seq<Cell>> {
    Seq::new(
        m.len(),
        |y: int|
            Seq::new(
                m[y].len(),
                |x: int| Cell { original_position: (x as usize, y as usize), ..m[y][x] },
            ),
    )
}

/// `r` are the original positions of the cells that `d` removals of the
/// cheapest seam would take from `m`, once each cell is tagged with its own
/// coordinate, ordered by descending column.
pub open spec fn simulated_points(m: Seq<Seq<Cell>>, d: nat, r: Seq<(usize, usize)>) -> bool {
    exists|g1: Seq<Seq<Cell>>, q: Seq<(usize, usize)>|
        #[trigger] shrunk_with_records(with_own_positions(m), g1, d, q) && r == by_column_desc(
            q,
            m[0].len() as int,
            0,
        )
}

/// Every cell of column `x` of a matrix of height `h`, bottom row first.
pub open spec fn column_seam(x: int, h: int) -> Seq<(usize, usize)> {
    Seq::new(h as nat, |i: int| (x as usize, (h - 1 - i) as usize))
}

/// Every cell of columns `lo` to `hi - 1` of a matrix of height `h`, by
/// descending column, each column bottom row first: what removing every
/// column as a seam would take.
pub open spec fn all_points_desc(hi: int, lo: int, h: int) -> Seq<(usize, usize)>
    decreases hi - lo,
{
    if lo >= hi {
        Seq::empty()
    } else {
        all_points_desc(hi, lo + 1, h) + column_seam(lo, h)
    }
}

proof fn lemma_all_points_within(hi: int, lo: int, h: int)
    requires
        0 <= lo,
        0 <= h,
    ensures
        points_within(all_points_desc(hi, lo, h), hi, h),
    decreases hi - lo,
{
    if lo < hi {
        lemma_all_points_within(hi, lo + 1, h);
        let a = all_points_desc(hi, lo + 1, h);
        let b = column_seam(lo, h);
        assert forall|i: int| 0 <= i < a.len() + b.len() implies (#[trigger] (a + b)[i]).0 < hi && (a
            + b)[i].1 < h by {
            if i >= a.len() {
                assert((a + b)[i] == b[i - a.len()]);
            }
        }
    }
}

/// `m` with `d` columns added, each row repeating its last cell.
pub open spec fn appended(m: Seq<Seq<Cell>>, d: nat) -> Seq<Seq<Cell>> {
    Seq::new(m.len(), |y: int| m[y] + Seq::new(d, |i: int| m[y].last()))
}

/// `m1` is `m0` with a fresh cell right of `(x, y)`: the rest of row `y`
/// moves one place right (its last cell drops out), and the new cell's
/// colour is the channel average of the cells at `x` and `x + 1` of `m0`.
pub open spec fn inserted_at(m0: Seq<Seq<Cell>>, m1: Seq<Seq<Cell>>, x: int, y: int) -> bool {
    let p = m1[y][x + 1].pixel;
    &&& m1 == m0.update(
        y,
        shifted_right(m0[y], x).update(
            x + 1,
            Cell { pixel: p, energy: 0, path_cost: 0, original_position: (0usize, 0usize) },
        ),
    )
    &&& forall|i: int|
        0 <= i < 4 ==> p[i] as int == channel_average(#[trigger] m0[y][x].pixel[i], m0[y][x + 1].pixel[i])
}

/// Each matrix of `ms` is the previous one with a cell inserted at the
/// matching point of `pts`.
pub open spec fn insertion_chain(ms: Seq<Seq<Seq<Cell>>>, pts: Seq<(usize, usize)>) -> bool {
    &&& ms.len() == pts.len() + 1
    &&& forall|k: int|
        0 <= k < pts.len() ==> inserted_at(#[trigger] ms[k], ms[k + 1], pts[k].0 as int, pts[k].1 as int)
}

/// `m1` is `m0` grown by `d` columns: `d` columns are appended, then an
/// averaged cell is inserted, right to left, at each point of `pts`: the
/// original positions that `d` removals of the cheapest seam would take (when
/// `d` is the whole width, every cell).
#[verifier::opaque]
pub open spec fn grown(m0: Seq<Seq<Cell>>, m1: Seq<Seq<Cell>>, d: nat, pts: Seq<(usize, usize)>) -> bool {
    &&& exists|ms: Seq<Seq<Seq<Cell>>>|
        #[trigger] insertion_chain(ms, pts) && ms[0] == appended(m0, d) && ms[pts.len() as int]
            == m1
    &&& if d < m0[0].len() {
            simulated_points(m0, d, pts)
        } else {
            pts == all_points_desc(m0[0].len() as int, 0, m0.len() as int)
        }
}

/// Columns added by one round of growth of a grid `w` columns wide with
/// `remaining` columns still to add: at most the grid's width, so that the
/// round's seams are distinct.
pub open spec fn round_size(w: int, remaining: int) -> int {
    if remaining < w {
        remaining
    } else {
        w
    }
}

/// Each matrix of `ms` is the previous one grown by one round, inserting at
/// the points `ps[k]`; `rs[k]` are the columns still to add before round `k`.
pub open spec fn growth_chain(
    ms: Seq<Seq<Seq<Cell>>>,
    rs: Seq<int>,
    ps: Seq<Seq<(usize, usize)>>,
) -> bool {
    &&& ms.len() == rs.len()
    &&& ps.len() + 1 == ms.len()
    &&& forall|k: int|
        0 <= k < ms.len() - 1 ==> rs[k + 1] == rs[k] - round_size(#[trigger] ms[k][0].len() as int, rs[k])
            && grown(ms[k], ms[k + 1], round_size(ms[k][0].len() as int, rs[k]) as nat, ps[k])
}

/// `m1` is `m0` grown by `d` columns, round after round; `q` are the points
/// inserted at, in order. Only a growth by more than the width takes more
/// than one round.
#[verifier::opaque]
pub open spec fn grown_in_rounds(
    m0: Seq<Seq<Cell>>,
    m1: Seq<Seq<Cell>>,
    d: nat,
    q: Seq<(usize, usize)>,
) -> bool {
    exists|ms: Seq<Seq<Seq<Cell>>>, rs: Seq<int>, ps: Seq<Seq<(usize, usize)>>|
        #[trigger] growth_chain(ms, rs, ps) && ms.len() >= 1 && ms[0] == m0 && rs[0] == d
            && ms.last() == m1 && rs.last() == 0 && q == ps.flatten()
}

/// Two grids of the same shape whose cells hold the same colours have the
/// same matrix of colours; if they also hold the same original positions,
/// the same matrix of those.
proof fn lemma_same_pixels(g1: Grid, g2: Grid)
    requires
        g1.wf(),
        g2.wf(),
        g1.width_spec() == g2.width_spec(),
        g1.height_spec() == g2.height_spec(),
        forall|x: int, y: int| g1.in_bounds(x, y) ==> (#[trigger] g1@[y][x]).pixel == g2@[y][x].pixel,
    ensures
        pixels_of(g1@) == pixels_of(g2@),
        (forall|x: int, y: int|
            g1.in_bounds(x, y) ==> (#[trigger] g1@[y][x]).original_position
                == g2@[y][x].original_position) ==> tags_of(g1@) == tags_of(g2@),
{
    if forall|x: int, y: int|
        g1.in_bounds(x, y) ==> (#[trigger] g1@[y][x]).original_position
            == g2@[y][x].original_position {
        assert forall|a: int| 0 <= a < g1@.len() implies #[trigger] tags_of(g1@)[a] =~= tags_of(
            g2@,
        )[a] by {
            assert(g1@[a].len() == g1.width_spec());
            assert(g2@[a].len() == g1.width_spec());
            assert forall|x: int| 0 <= x < g1.width_spec() implies g1@[a][x].original_position
                == g2@[a][x].original_position by {
                assert(g1.in_bounds(x, a));
            }
        }
        assert(tags_of(g1@) =~= tags_of(g2@));
    }
    assert forall|a: int| 0 <= a < g1@.len() implies #[trigger] pixels_of(g1@)[a] =~= pixels_of(
        g2@,
    )[a] by {
        assert(g1@[a].len() == g1.width_spec());
        assert(g2@[a].len() == g1.width_spec());
        assert forall|x: int| 0 <= x < g1.width_spec() implies g1@[a][x].pixel == g2@[a][x].pixel by {
            assert(g1.in_bounds(x, a));
        }
    }
    assert(pixels_of(g1@) =~= pixels_of(g2@));
}

/// The colour that marks a touched point in a debug image.
pub const DEBUG_COLOUR: [u8; 4] = [255, 0, 0, 255];

/// Whether some point of `points` is `(x, y)`.
pub open spec fn marked(points: Seq<(usize, usize)>, x: int, y: int) -> bool {
    exists|i: int| 0 <= i < points.len() && #[trigger] points[i] == (x as usize, y as usize)
}

/// A copy of `image` with every point of `points` that lies inside it painted
/// `DEBUG_COLOUR`; points outside the image are passed over.
pub fn create_debug_image(image: &Image, points: &Vec<(usize, usize)>) -> (r: Image)
    requires
        image.valid(),
    ensures
        r.valid(),
        r.width == image.width,
        r.height == image.height,
        forall|x: int, y: int|
            0 <= x < image.width && 0 <= y < image.height ==> #[trigger] r.pixels@[y * image.width
                + x] == if marked(points@, x, y) {
                DEBUG_COLOUR
            } else {
                image.pixels@[y * image.width + x]
            },
{
    let mut pixels: Vec<[u8; 4]> = Vec::new();
    let n = image.pixels.len();
    let mut k: usize = 0;
    while k < n
        invariant
            k <= n,
            n == image.pixels@.len(),
            pixels@ == image.pixels@.subrange(0, k as int),
        decreases n - k,
    {
        pixels.push(image.pixels[k]);
        k = k + 1;
        proof {
            assert(pixels@ =~= image.pixels@.subrange(0, k as int));
        }
    }
    proof {
        assert(pixels@ =~= image.pixels@);
    }
    let ghost w = image.width as int;
    let mut i: usize = 0;
    while i < points.len()
        invariant
            i <= points@.len(),
            image.valid(),
            n == image.pixels@.len(),
            w == image.width,
            pixels@.len() == image.pixels@.len(),
            forall|x: int, y: int|
                0 <= x < image.width && 0 <= y < image.height ==> #[trigger] pixels@[y * w + x]
                    == if marked(points@.subrange(0, i as int), x, y) {
                    DEBUG_COLOUR
                } else {
                    image.pixels@[y * w + x]
                },
        decreases points@.len() - i,
    {
        let (x, y) = points[i];
        let ghost before = pixels@;
        if x < image.width && y < image.height {
            proof {
                lemma_index_bounds(x as int, y as int, image.width as int, image.height as int);
            }
            pixels.set(y * image.width + x, DEBUG_COLOUR);
        }
        proof {
            let sub = points@.subrange(0, i as int + 1);
            assert forall|a: int, b: int|
                0 <= a < image.width && 0 <= b < image.height implies #[trigger] pixels@[b * w + a]
                == if marked(sub, a, b) {
                DEBUG_COLOUR
            } else {
                image.pixels@[b * w + a]
            } by {
                lemma_index_bounds(a, b, image.width as int, image.height as int);
                if x < image.width && y < image.height {
                    lemma_index_bounds(x as int, y as int, image.width as int, image.height as int);
                    lemma_index_injective(a, b, x as int, y as int, w);
                }
                if marked(points@.subrange(0, i as int), a, b) {
                    let j = choose|j: int|
                        0 <= j < i && #[trigger] points@.subrange(0, i as int)[j] == (
                            a as usize,
                            b as usize,
                        );
                    assert(sub[j] == (a as usize, b as usize));
                }
                if marked(sub, a, b) && !marked(points@.subrange(0, i as int), a, b) {
                    let j = choose|j: int|
                        0 <= j < i + 1 && #[trigger] sub[j] == (a as usize, b as usize);
                    if j < i {
                        assert(points@.subrange(0, i as int)[j] == sub[j]);
                    }
                }
                if (a as usize, b as usize) == (x, y) {
                    assert(sub[i as int] == (x, y));
                }
            }
        }
        i = i + 1;
    }
    proof {
        assert(points@.subrange(0, points@.len() as int) =~= points@);
    }
    Image { width: image.width, height: image.height, pixels }
}

/// A position inside a `w` by `h` buffer has a row-major index inside it.
pub(crate) proof fn lemma_index_bounds(x: int, y: int, w: int, h: int)
    requires
        0 <= x < w,
        0 <= y < h,
    ensures
        0 <= y * w + x < w * h,
{
    assert(0 <= y * w) by (nonlinear_arith)
        requires
            0 <= y,
            0 <= w,
    ;
    assert(y * w + x < (y + 1) * w) by (nonlinear_arith)
        requires
            x < w,
    ;
    assert((y + 1) * w <= h * w) by (nonlinear_arith)
        requires
            y + 1 <= h,
            0 <= w,
    ;
    assert(h * w == w * h) by (nonlinear_arith);
}

proof fn lemma_index_injective(x1: int, y1: int, x2: int, y2: int, w: int)
    requires
        0 <= x1 < w,
        0 <= x2 < w,
        0 <= y1,
        0 <= y2,
    ensures
        y1 * w + x1 == y2 * w + x2 <==> x1 == x2 && y1 == y2,
{
    if y1 < y2 {
        assert((y1 + 1) * w <= y2 * w) by (nonlinear_arith)
            requires
                y1 + 1 <= y2,
                0 <= w,
        ;
        assert(y1 * w + x1 < (y1 + 1) * w) by (nonlinear_arith)
            requires
                x1 < w,
        ;
    } else if y2 < y1 {
        assert((y2 + 1) * w <= y1 * w) by (nonlinear_arith)
            requires
                y2 + 1 <= y1,
                0 <= w,
        ;
        assert(y2 * w + x2 < (y2 + 1) * w) by (nonlinear_arith)
            requires
                x2 < w,
        ;
    }
}

/// Resizes an image by removing or inserting seams.
pub struct Carver {
    grid: Grid,
    removed_points: Vec<(usize, usize)>,
}

impl Carver {
    /// The grid being carved.
    pub closed spec fn grid_spec(&self) -> Grid {
        self.grid
    }

    /// The points touched by the most recent resize.
    pub closed spec fn points_spec(&self) -> Seq<(usize, usize)> {
        self.removed_points@
    }

    /// The carver holds a well-formed grid.
    pub open spec fn wf(&self) -> bool {
        self.grid_spec().wf()
    }

    /// Builds a carver over a copy of `image`. Fails with
    /// `InvalidDimensions` where a side is zero, or
    /// the buffer does not hold one colour per position.
    pub fn new(image: &Image) -> (r: Result<Carver, CarveError>)
        ensures
            r is Ok <==> dimensions_ok(image.width as int, image.height as int) && image.valid(),
            r is Err ==> r == Err::<Carver, CarveError>(CarveError::InvalidDimensions),
            r matches Ok(c) ==> {
                &&& c.wf()
                &&& c.grid_spec().width_spec() == image.width
                &&& c.grid_spec().height_spec() == image.height
                &&& c.points_spec().len() == 0
                &&& forall|x: int, y: int|
                    c.grid_spec().in_bounds(x, y) ==> #[trigger] c.grid_spec().pixel_at(x, y)
                        == image.pixels@[y * image.width + x]
            },
    {
        let len = image.pixels.len();
        if image.width == 0 || image.height == 0 {
            return Err(CarveError::InvalidDimensions);
        }
        match image.width.checked_mul(image.height) {
            None => Err(CarveError::InvalidDimensions),
            Some(n) => {
                if n != len {
                    return Err(CarveError::InvalidDimensions);
                }
                let grid = Grid::from_pixels(image.width, image.height, &image.pixels);
                Ok(Carver { grid, removed_points: Vec::new() })
            },
        }
    }

    /// The points touched by the most recent resize.
    pub fn get_removed_points(&self) -> (r: Vec<(usize, usize)>)
        ensures
            r@ == self.points_spec(),
    {
        let mut r: Vec<(usize, usize)> = Vec::new();
        let mut i: usize = 0;
        while i < self.removed_points.len()
            invariant
                i <= self.removed_points@.len(),
                r@ == self.removed_points@.subrange(0, i as int),
            decreases self.removed_points@.len() - i,
        {
            r.push(self.removed_points[i]);
            i = i + 1;
            proof {
                assert(r@ =~= self.removed_points@.subrange(0, i as int));
            }
        }
        proof {
            assert(r@ =~= self.removed_points@);
        }
        r
    }

    /// Removes the seam `points`, one cell from each row, recording the
    /// original position of each removed cell.
    fn remove_path(&mut self, points: &Vec<(usize, usize)>)
        requires
            old(self).wf(),
            old(self).grid_spec().width_spec() >= 2,
            one_point_per_row(old(self).grid_spec(), points@),
        ensures
            final(self).wf(),
            final(self).grid_spec().width_spec() == old(self).grid_spec().width_spec() - 1,
            final(self).grid_spec().height_spec() == old(self).grid_spec().height_spec(),
            final(self).grid_spec()@ == seam_removed(old(self).grid_spec()@, points@),
            final(self).points_spec() == old(self).points_spec() + Seq::new(
                points@.len(),
                |i: int| old(self).grid_spec()@[points@[i].1 as int][points@[i].0 as int].original_position,
            ),
            forall|pw: int, ph: int|
                #[trigger] positions_within(old(self).grid_spec(), pw, ph) && points_within(
                    old(self).points_spec(),
                    pw,
                    ph,
                ) ==> positions_within(final(self).grid_spec(), pw, ph) && points_within(
                    final(self).points_spec(),
                    pw,
                    ph,
                ),
    {
        let ghost g0 = self.grid@;
        let ghost p0 = self.removed_points@;
        let ghost w = self.grid.width_spec();
        let ghost h = self.grid.height_spec();
        let ghost recorded = Seq::new(
            points@.len(),
            |i: int| g0[points@[i].1 as int][points@[i].0 as int].original_position,
        );
        let mut i: usize = 0;
        while i < points.len()
            invariant
                0 <= i <= points@.len(),
                points@.len() == h,
                one_point_per_row(old(self).grid_spec(), points@),
                g0 == old(self).grid_spec()@,
                w == old(self).grid_spec().width_spec(),
                h == old(self).grid_spec().height_spec(),
                old(self).wf(),
                self.grid.wf(),
                self.grid.width_spec() == w,
                self.grid.height_spec() == h,
                forall|j: int|
                    0 <= j < h ==> #[trigger] self.grid@[j] == if j >= h - i {
                        crate::grid::shifted_left(g0[j], points@[h - 1 - j].0 as int)
                    } else {
                        g0[j]
                    },
                self.removed_points@ == p0 + recorded.subrange(0, i as int),
                recorded == Seq::new(
                    points@.len(),
                    |k: int| g0[points@[k].1 as int][points@[k].0 as int].original_position,
                ),
            decreases points@.len() - i,
        {
            let (x, y) = points[i];
            proof {
                assert(points@[i as int].1 == h - 1 - i);
            }
            proof {
                assert(self.grid@[y as int] == g0[y as int]);
            }
            let c = self.grid.get(x, y);
            self.removed_points.push(c.original_position);
            self.grid.shift_row_left_from_point(x, y);
            i = i + 1;
            proof {
                assert(self.removed_points@ =~= p0 + recorded.subrange(0, i as int));
            }
        }
        self.grid.remove_last_column();
        proof {
            assert(self.removed_points@ =~= p0 + recorded);
            assert forall|j: int| 0 <= j < h implies #[trigger] self.grid@[j] == seam_removed(
                g0,
                points@,
            )[j] by {
                let k = points@[h - 1 - j].0 as int;
                assert(points@[h - 1 - j].1 == h - 1 - (h - 1 - j));
                assert(g0[j].len() == w);
                assert(self.grid@[j] =~= g0[j].remove(k));
            }
            assert(self.grid@ =~= seam_removed(g0, points@));
            assert forall|pw: int, ph: int|
                #[trigger] positions_within(old(self).grid_spec(), pw, ph) && points_within(
                    old(self).points_spec(),
                    pw,
                    ph,
                ) implies positions_within(self.grid_spec(), pw, ph) && points_within(
                self.points_spec(),
                pw,
                ph,
            ) by {
                assert forall|x: int, y: int| self.grid.in_bounds(x, y) implies (
                #[trigger] self.grid@[y][x]).original_position.0 < pw
                    && self.grid@[y][x].original_position.1 < ph by {
                    let k = points@[h - 1 - y].0 as int;
                    assert(g0[y].len() == w);
                    assert(self.grid@[y] == g0[y].remove(k));
                    if x < k {
                        assert(self.grid@[y][x] == g0[y][x]);
                    } else {
                        assert(self.grid@[y][x] == g0[y][x + 1]);
                    }
                }
                assert forall|k: int| 0 <= k < self.removed_points@.len() implies (
                #[trigger] self.removed_points@[k]).0 < pw && self.removed_points@[k].1 < ph by {
                    if k >= p0.len() {
                        let t = k - p0.len();
                        assert(self.removed_points@[k] == recorded[t]);
                        assert(points@[t].1 == h - 1 - t);
                        assert(old(self).grid_spec().in_bounds(points@[t].0 as int, points@[t].1 as int));
                    } else {
                        assert(self.removed_points@[k] == p0[k]);
                    }
                }
            }
        }
    }

    /// Removes `distance` seams, one at a time, each the cheapest seam of
    /// the grid as it stands after the previous removals.
    fn shrink_distance(&mut self, distance: usize)
        requires
            old(self).wf(),
            distance < old(self).grid_spec().width_spec(),
        ensures
            final(self).wf(),
            final(self).grid_spec().width_spec() == old(self).grid_spec().width_spec() - distance,
            final(self).grid_spec().height_spec() == old(self).grid_spec().height_spec(),
            final(self).points_spec().len() == old(self).points_spec().len() + distance
                * old(self).grid_spec().height_spec(),
            carved(pixels_of(old(self).grid_spec()@), pixels_of(final(self).grid_spec()@), distance as nat),
            final(self).points_spec().subrange(0, old(self).points_spec().len() as int)
                == old(self).points_spec(),
            shrunk_with_records(
                old(self).grid_spec()@,
                final(self).grid_spec()@,
                distance as nat,
                final(self).points_spec().subrange(
                    old(self).points_spec().len() as int,
                    final(self).points_spec().len() as int,
                ),
            ),
            forall|pw: int, ph: int|
                #[trigger] positions_within(old(self).grid_spec(), pw, ph) && points_within(
                    old(self).points_spec(),
                    pw,
                    ph,
                ) ==> positions_within(final(self).grid_spec(), pw, ph) && points_within(
                    final(self).points_spec(),
                    pw,
                    ph,
                ),
    {
        proof {
            reveal(carved);
            reveal(shrunk_with_records);
        }
        let ghost mut chain: Seq<Seq<Seq<[u8; 4]>>> = seq![pixels_of(self.grid@)];
        let ghost mut gs: Seq<Seq<Seq<Cell>>> = seq![self.grid@];
        let ghost mut ts: Seq<Seq<(usize, usize)>> = Seq::empty();
        proof {
            assert(self.points_spec() =~= old(self).points_spec() + ts.flatten());
        }
        let mut i: usize = 0;
        while i < distance
            invariant
                i <= distance,
                carving_chain(chain),
                chain.len() == i + 1,
                removal_chain(gs, ts),
                ts.len() == i,
                gs[0] == old(self).grid_spec()@,
                gs[i as int] == self.grid_spec()@,
                self.points_spec() == old(self).points_spec() + ts.flatten(),
                chain[0] == pixels_of(old(self).grid_spec()@),
                chain[i as int] == pixels_of(self.grid_spec()@),
                distance < old(self).grid_spec().width_spec(),
                self.wf(),
                self.grid_spec().width_spec() == old(self).grid_spec().width_spec() - i,
                self.grid_spec().height_spec() == old(self).grid_spec().height_spec(),
                self.points_spec().len() == old(self).points_spec().len() + i * old(
                    self,
                ).grid_spec().height_spec(),
                forall|pw: int, ph: int|
                    #[trigger] positions_within(old(self).grid_spec(), pw, ph) && points_within(
                        old(self).points_spec(),
                        pw,
                        ph,
                    ) ==> positions_within(self.grid_spec(), pw, ph) && points_within(
                        self.points_spec(),
                        pw,
                        ph,
                    ),
            decreases distance - i,
        {
            let ghost before = *self;
            let ghost old_chain = chain;
            calculate_energy(&mut self.grid);
            proof {
                assert forall|pw: int, ph: int|
                    #[trigger] positions_within(before.grid_spec(), pw, ph) implies positions_within(
                    self.grid_spec(),
                    pw,
                    ph,
                ) by {
                    assert forall|x: int, y: int| self.grid.in_bounds(x, y) implies (
                    #[trigger] self.grid@[y][x]).original_position.0 < pw
                        && self.grid@[y][x].original_position.1 < ph by {
                        assert(before.grid@[y][x].original_position == self.grid@[y][x].original_position);
                    }
                }
            }
            let (start_x, start_y) = get_path_start(&self.grid);
            let path = find_path(&self.grid, start_x, start_y);
            let ghost mid = *self;
            self.remove_path(&path);
            proof {
                let p0 = pixels_of(old(self).grid_spec()@);
                let pm = pixels_of(before.grid_spec()@);
                assert(pixels_of(mid.grid@) =~= pm) by {
                    assert forall|a: int| 0 <= a < pm.len() implies #[trigger] pixels_of(mid.grid@)[a]
                        =~= pm[a] by {
                        assert(mid.grid@[a].len() == mid.grid.width_spec());
                        assert(before.grid@[a].len() == mid.grid.width_spec());
                    }
                }
                lemma_same_pixels(before.grid, mid.grid);
                let old_gs = gs;
                let old_ts = ts;
                let t = seam_tags(mid.grid@, path@);
                reveal(removal_witness);
                reveal(carve_witness);
                assert(removal_witness(mid.grid, path@, before.grid@, self.grid@, t));
                assert(removal_step(gs[i as int], self.grid@, t));
                gs = gs.push(self.grid@);
                ts = ts.push(t);
                assert forall|k: int| 0 <= k < ts.len() implies removal_step(
                    #[trigger] gs[k],
                    gs[k + 1],
                    ts[k],
                ) by {
                    if k < i {
                        assert(gs[k] == old_gs[k] && gs[k + 1] == old_gs[k + 1] && ts[k] == old_ts[k]);
                    }
                }
                old_ts.lemma_flatten_push(t);
                let hh = old(self).grid_spec().height_spec();
                assert((i + 1) * hh == i * hh + hh) by (nonlinear_arith);
                assert(self.points_spec() =~= old(self).points_spec() + ts.flatten());
                assert(carve_witness(mid.grid, path@, pm, pixels_of(self.grid@)));
                assert(carved_once(pm, pixels_of(self.grid@)));
                chain = chain.push(pixels_of(self.grid@));
                assert(carved_once(chain[i as int], chain[i + 1]));
                assert forall|k: int| 0 <= k < chain.len() - 1 implies carved_once(
                    #[trigger] chain[k],
                    chain[k + 1],
                ) by {
                    if k < i {
                        assert(chain[k] == old_chain[k] && chain[k + 1] == old_chain[k + 1]);
                    }
                }
            }
            proof {
                assert forall|pw: int, ph: int|
                    #[trigger] positions_within(old(self).grid_spec(), pw, ph) && points_within(
                        old(self).points_spec(),
                        pw,
                        ph,
                    ) implies positions_within(self.grid_spec(), pw, ph) && points_within(
                    self.points_spec(),
                    pw,
                    ph,
                ) by {
                    assert(positions_within(before.grid_spec(), pw, ph));
                    assert(positions_within(mid.grid_spec(), pw, ph));
                }
            }
            i = i + 1;
        }
        proof {
            assert(carving_chain(chain) && chain.len() == distance + 1 && chain[0] == pixels_of(
                old(self).grid_spec()@,
            ) && chain[distance as int] == pixels_of(self.grid_spec()@));
            assert(self.points_spec().subrange(
                old(self).points_spec().len() as int,
                self.points_spec().len() as int,
            ) =~= ts.flatten());
            assert(removal_chain(gs, ts) && ts.len() == distance && gs[0] == old(self).grid_spec()@
                && gs[distance as int] == self.grid_spec()@);
            assert(self.points_spec().subrange(0, old(self).points_spec().len() as int)
                =~= old(self).points_spec());
        }
    }

    /// The original positions of the `distance` cells per row that
    /// shrinking a copy of the grid by `distance` would remove, by descending
    /// column. Where `distance` is the whole width, every cell is removed.
    fn get_points_removed_by_shrink(&self, distance: usize) -> (r: Vec<(usize, usize)>)
        requires
            self.wf(),
            1 <= distance <= self.grid_spec().width_spec(),
        ensures
            points_within(r@, self.grid_spec().width_spec(), self.grid_spec().height_spec()),
            r@.len() == distance * self.grid_spec().height_spec(),
            distance < self.grid_spec().width_spec() ==> simulated_points(
                self.grid_spec()@,
                distance as nat,
                r@,
            ),
            distance == self.grid_spec().width_spec() ==> r@ == all_points_desc(
                self.grid_spec().width_spec(),
                0,
                self.grid_spec().height_spec(),
            ),
    {
        proof {
            reveal(shrunk_with_records);
        }
        let w = self.grid.width();
        let h = self.grid.height();
        if distance >= w {
            let mut r: Vec<(usize, usize)> = Vec::new();
            let mut c: usize = w;
            proof {
                assert((w - c) * h == 0) by (nonlinear_arith)
                    requires
                        c == w,
                ;
            }
            while c > 0
                invariant
                    c <= w,
                    r@ == all_points_desc(w as int, c as int, h as int),
                    r@.len() == (w - c) * h,
                decreases c,
            {
                let ghost prefix = r@;
                let mut y: usize = h;
                while y > 0
                    invariant
                        y <= h,
                        0 < c <= w,
                        r@ == prefix + column_seam(c - 1, h as int).subrange(0, h - y),
                    decreases y,
                {
                    y = y - 1;
                    r.push((c - 1, y));
                    proof {
                        assert(r@ =~= prefix + column_seam(c - 1, h as int).subrange(0, h - y));
                    }
                }
                proof {
                    assert(column_seam(c - 1, h as int).subrange(0, h as int) =~= column_seam(
                        c - 1,
                        h as int,
                    ));
                    assert((w - (c - 1)) * h == (w - c) * h + h) by (nonlinear_arith);
                }
                c = c - 1;
            }
            proof {
                lemma_all_points_within(w as int, 0, h as int);
            }
            return r;
        }
        let mut shrinker = Carver { grid: self.grid.copy(), removed_points: Vec::new() };
        shrinker.grid.reset_positions();
        proof {
            assert forall|x: int, y: int| shrinker.grid.in_bounds(x, y) implies (
            #[trigger] shrinker.grid@[y][x]).original_position.0 < w
                && shrinker.grid@[y][x].original_position.1 < h by {
                assert(self.grid.in_bounds(x, y));
            }
            assert(positions_within(shrinker.grid, w as int, h as int));
            assert(points_within(shrinker.removed_points@, w as int, h as int));
        }
        let ghost tagged = shrinker.grid@;
        proof {
            assert forall|y: int| 0 <= y < h implies #[trigger] tagged[y] =~= with_own_positions(
                self.grid@,
            )[y] by {
                assert(self.grid@[y].len() == w);
                assert(tagged[y].len() == w);
                assert forall|x: int| 0 <= x < w implies tagged[y][x] == with_own_positions(
                    self.grid@,
                )[y][x] by {
                    assert(self.grid.in_bounds(x, y));
                }
            }
            assert(tagged =~= with_own_positions(self.grid@));
        }
        shrinker.shrink_distance(distance);
        proof {
            assert(points_within(shrinker.removed_points@, w as int, h as int));
        }
        let r = sort_by_column_desc(&shrinker.removed_points, w);
        proof {
            lemma_by_column_desc_within(shrinker.removed_points@, w as int, 0, w as int, h as int);
            let q = shrinker.points_spec();
            assert forall|i: int| 0 <= i < q.len() implies 0 <= (#[trigger] q[i]).0 < w by {}
            lemma_by_column_desc_len(q, w as int, 0);
            assert(q.subrange(0, q.len() as int) =~= q);
            assert(shrunk_with_records(tagged, shrinker.grid@, distance as nat, q));
            assert(self.grid@[0].len() == w);
        }
        r
    }

    /// The channel average of `left` and the colour right of `(x, y)`.
    fn average_pixel_from_neighbors(&self, x: usize, y: usize, left: [u8; 4]) -> (r: [u8; 4])
        requires
            self.wf(),
            self.grid_spec().in_bounds(x + 1, y as int),
        ensures
            forall|i: int|
                0 <= i < 4 ==> r[i] as int == crate::pixel::channel_average(
                    #[trigger] left[i],
                    self.grid_spec().pixel_at(x + 1, y as int)[i],
                ),
    {
        let right = self.grid.get(x + 1, y).pixel;
        average_pixels(&left, &right)
    }

    /// Opens a gap right of `(x, y)` by shifting the rest of row `y` right,
    /// puts a fresh cell of colour `pixel` there, and records `(x, y)`.
    fn add_point(&mut self, x: usize, y: usize, pixel: [u8; 4])
        requires
            old(self).wf(),
            old(self).grid_spec().in_bounds(x + 1, y as int),
        ensures
            final(self).wf(),
            final(self).grid_spec().width_spec() == old(self).grid_spec().width_spec(),
            final(self).grid_spec().height_spec() == old(self).grid_spec().height_spec(),
            final(self).grid_spec()@ == old(self).grid_spec()@.update(
                y as int,
                crate::grid::shifted_right(old(self).grid_spec()@[y as int], x as int).update(
                    x + 1,
                    Cell { pixel, energy: 0, path_cost: 0, original_position: (0usize, 0usize) },
                ),
            ),
            final(self).points_spec() == old(self).points_spec().push((x, y)),
    {
        self.removed_points.push((x, y));
        self.grid.shift_row_right_from_point(x, y);
        self.grid.set(x + 1, y, Cell::from_pixel(pixel));
    }

    /// Inserts `distance` columns at the cells that shrinking by `distance`
    /// would remove, each new cell the average of its two neighbours.
    fn grow_chunk(&mut self, distance: usize)
        requires
            old(self).wf(),
            1 <= distance <= old(self).grid_spec().width_spec(),
            old(self).grid_spec().width_spec() + distance <= usize::MAX,
        ensures
            final(self).wf(),
            final(self).grid_spec().width_spec() == old(self).grid_spec().width_spec() + distance,
            final(self).grid_spec().height_spec() == old(self).grid_spec().height_spec(),
            old(self).points_spec().len() <= final(self).points_spec().len(),
            final(self).points_spec().subrange(0, old(self).points_spec().len() as int)
                == old(self).points_spec(),
            final(self).points_spec().len() == old(self).points_spec().len() + distance
                * old(self).grid_spec().height_spec(),
            grown(
                old(self).grid_spec()@,
                final(self).grid_spec()@,
                distance as nat,
                final(self).points_spec().subrange(
                    old(self).points_spec().len() as int,
                    final(self).points_spec().len() as int,
                ),
            ),
    {
        proof {
            reveal(grown);
        }
        let w0 = self.grid.width();
        let h = self.grid.height();
        let ghost m0 = self.grid@;
        let points = self.get_points_removed_by_shrink(distance);
        let mut i: usize = 0;
        while i < distance
            invariant
                i <= distance,
                w0 + distance <= usize::MAX,
                self.wf(),
                self.grid_spec().width_spec() == w0 + i,
                self.grid_spec().height_spec() == h,
                self.points_spec() == old(self).points_spec(),
                m0 == old(self).grid_spec()@,
                old(self).wf(),
                w0 == old(self).grid_spec().width_spec(),
                self.grid_spec()@ == appended(m0, i as nat),
            decreases distance - i,
        {
            let ghost before = self.grid@;
            self.grid.append_column();
            proof {
                assert forall|y: int| 0 <= y < h implies #[trigger] self.grid@[y] =~= appended(
                    m0,
                    (i + 1) as nat,
                )[y] by {
                    assert(m0[y].len() == w0);
                    assert(before[y] == appended(m0, i as nat)[y]);
                }
                assert(self.grid@ =~= appended(m0, (i + 1) as nat));
            }
            i = i + 1;
        }
        let ghost mut ms: Seq<Seq<Seq<Cell>>> = seq![self.grid@];
        let mut k: usize = 0;
        while k < points.len()
            invariant
                k <= points@.len(),
                points_within(points@, w0 as int, h as int),
                1 <= distance,
                self.wf(),
                self.grid_spec().width_spec() == w0 + distance,
                self.grid_spec().height_spec() == h,
                old(self).points_spec().len() <= self.points_spec().len(),
                insertion_chain(ms, points@.subrange(0, k as int)),
                self.points_spec() == old(self).points_spec() + points@.subrange(0, k as int),
                ms[0] == appended(m0, distance as nat),
                ms[k as int] == self.grid_spec()@,
            decreases points@.len() - k,
        {
            let (x, y) = points[k];
            proof {
                assert(points@[k as int].0 < w0 && points@[k as int].1 < h);
            }
            let ghost before = self.grid@;
            let ghost before_points = self.points_spec();
            let left = self.grid.get(x, y).pixel;
            let pixel = self.average_pixel_from_neighbors(x, y, left);
            self.add_point(x, y, pixel);
            proof {
                let old_ms = ms;
                assert(self.grid@[y as int].len() == w0 + distance);
                assert(before[y as int].len() == w0 + distance);
                assert(self.grid@[y as int][x + 1].pixel == pixel);
                assert(inserted_at(before, self.grid@, x as int, y as int));
                assert(self.points_spec() =~= old(self).points_spec() + points@.subrange(0, k + 1));
                ms = ms.push(self.grid@);
                let sub = points@.subrange(0, k + 1);
                assert forall|j: int| 0 <= j < sub.len() implies inserted_at(
                    #[trigger] ms[j],
                    ms[j + 1],
                    sub[j].0 as int,
                    sub[j].1 as int,
                ) by {
                    if j < k {
                        assert(ms[j] == old_ms[j] && ms[j + 1] == old_ms[j + 1]);
                        assert(sub[j] == points@.subrange(0, k as int)[j]);
                    }
                }
            }
            k = k + 1;
        }
        proof {
            assert(points@.subrange(0, points@.len() as int) =~= points@);
            assert(m0[0].len() == w0);
            assert(insertion_chain(ms, points@) && ms[0] == appended(m0, distance as nat)
                && ms[points@.len() as int] == self.grid@);
            assert(self.points_spec().subrange(
                old(self).points_spec().len() as int,
                self.points_spec().len() as int,
            ) =~= points@);
            assert(self.points_spec().subrange(0, old(self).points_spec().len() as int)
                =~= old(self).points_spec());
        }
    }

    /// Widens the grid by `distance` columns, in rounds of fewer columns than
    /// the grid has, so that each round's seams are distinct.
    #[verifier::rlimit(60)]
    fn grow_distance(&mut self, distance: usize)
        requires
            old(self).wf(),
            old(self).grid_spec().width_spec() + distance <= usize::MAX,
        ensures
            final(self).wf(),
            final(self).grid_spec().width_spec() == old(self).grid_spec().width_spec() + distance,
            final(self).grid_spec().height_spec() == old(self).grid_spec().height_spec(),
            old(self).points_spec().len() <= final(self).points_spec().len(),
            final(self).points_spec().subrange(0, old(self).points_spec().len() as int)
                == old(self).points_spec(),
            final(self).points_spec().len() == old(self).points_spec().len() + distance
                * old(self).grid_spec().height_spec(),
            grown_in_rounds(
                old(self).grid_spec()@,
                final(self).grid_spec()@,
                distance as nat,
                final(self).points_spec().subrange(
                    old(self).points_spec().len() as int,
                    final(self).points_spec().len() as int,
                ),
            ),
    {
        proof {
            reveal(grown_in_rounds);
        }
        let ghost mut ms: Seq<Seq<Seq<Cell>>> = seq![self.grid@];
        let ghost mut rs: Seq<int> = seq![distance as int];
        let ghost mut ps: Seq<Seq<(usize, usize)>> = Seq::empty();
        proof {
            assert(self.points_spec() =~= old(self).points_spec() + ps.flatten());
        }
        let mut remaining: usize = distance;
        while remaining > 0
            invariant
                remaining <= distance,
                old(self).grid_spec().width_spec() + distance <= usize::MAX,
                self.wf(),
                self.grid_spec().width_spec() == old(self).grid_spec().width_spec() + distance
                    - remaining,
                self.grid_spec().height_spec() == old(self).grid_spec().height_spec(),
                old(self).points_spec().len() <= self.points_spec().len(),
                growth_chain(ms, rs, ps),
                self.points_spec() == old(self).points_spec() + ps.flatten(),
                self.points_spec().len() == old(self).points_spec().len() + (distance - remaining)
                    * old(self).grid_spec().height_spec(),
                ms.len() >= 1,
                ms[0] == old(self).grid_spec()@,
                rs[0] == distance,
                ms.last() == self.grid_spec()@,
                rs.last() == remaining,
            decreases remaining,
        {
            let w = self.grid.width();
            let chunk = if remaining < w {
                remaining
            } else {
                w
            };
            let ghost before = self.grid@;
            let ghost before_points = self.points_spec();
            self.grow_chunk(chunk);
            proof {
                assert(before[0].len() == w);
                let old_ms = ms;
                let old_rs = rs;
                let old_ps = ps;
                let added = self.points_spec().subrange(
                    before_points.len() as int,
                    self.points_spec().len() as int,
                );
                ms = ms.push(self.grid@);
                rs = rs.push(remaining - chunk);
                ps = ps.push(added);
                old_ps.lemma_flatten_push(added);
                let hh = old(self).grid_spec().height_spec();
                assert((distance - (remaining - chunk)) * hh == (distance - remaining) * hh + chunk
                    * hh) by (nonlinear_arith);
                assert(self.points_spec() =~= before_points + added);
                assert(self.points_spec() =~= old(self).points_spec() + ps.flatten());
                assert forall|k: int| 0 <= k < ms.len() - 1 implies rs[k + 1] == rs[k] - round_size(
                    #[trigger] ms[k][0].len() as int,
                    rs[k],
                ) && grown(ms[k], ms[k + 1], round_size(ms[k][0].len() as int, rs[k]) as nat, ps[k]) by {
                    if k < old_ms.len() - 1 {
                        assert(ms[k] == old_ms[k] && ms[k + 1] == old_ms[k + 1]);
                        assert(rs[k] == old_rs[k] && rs[k + 1] == old_rs[k + 1]);
                        assert(ps[k] == old_ps[k]);
                    } else {
                        assert(ms[k] == before);
                        assert(rs[k] == remaining);
                    }
                }
            }
            remaining = remaining - chunk;
        }
        proof {
            assert(self.points_spec().subrange(
                old(self).points_spec().len() as int,
                self.points_spec().len() as int,
            ) =~= ps.flatten());
            assert(self.points_spec().subrange(0, old(self).points_spec().len() as int)
                =~= old(self).points_spec());
            assert(growth_chain(ms, rs, ps) && ms.len() >= 1 && ms[0] == old(self).grid_spec()@
                && rs[0] == distance && ms.last() == self.grid_spec()@ && rs.last() == 0);
        }
    }

    /// Transposes the grid.
    fn rotate(&mut self)
        requires
            old(self).wf(),
        ensures
            final(self).wf(),
            final(self).grid_spec().width_spec() == old(self).grid_spec().height_spec(),
            final(self).grid_spec().height_spec() == old(self).grid_spec().width_spec(),
            final(self).grid_spec()@ == crate::grid::transpose(
                old(self).grid_spec()@,
                old(self).grid_spec().width_spec(),
            ),
            final(self).points_spec() == old(self).points_spec(),
    {
        self.grid.rotate();
    }

    /// Swaps the coordinates of the recorded points from index `from` on,
    /// taking them from the transposed grid back to the image's frame.
    fn rotate_removed_points(&mut self, from: usize)
        requires
            from <= old(self).points_spec().len(),
        ensures
            final(self).grid_spec() == old(self).grid_spec(),
            final(self).points_spec().len() == old(self).points_spec().len(),
            forall|i: int|
                0 <= i < from ==> #[trigger] final(self).points_spec()[i] == old(self).points_spec()[i],
            forall|i: int|
                from <= i < old(self).points_spec().len() ==> #[trigger] final(self).points_spec()[i]
                    == (old(self).points_spec()[i].1, old(self).points_spec()[i].0),
    {
        let mut i: usize = from;
        while i < self.removed_points.len()
            invariant
                from <= i <= self.removed_points@.len(),
                self.grid == old(self).grid,
                self.removed_points@.len() == old(self).removed_points@.len(),
                forall|k: int| 0 <= k < from ==> #[trigger] self.removed_points@[k] == old(self).removed_points@[k],
                forall|k: int|
                    from <= k < i ==> #[trigger] self.removed_points@[k] == (
                        old(self).removed_points@[k].1,
                        old(self).removed_points@[k].0,
                    ),
                forall|k: int| i <= k < self.removed_points@.len() ==> #[trigger] self.removed_points@[k] == old(self).removed_points@[k],
            decreases self.removed_points@.len() - i,
        {
            let (a, b) = self.removed_points[i];
            self.removed_points.set(i, (b, a));
            i = i + 1;
        }
    }

    /// The grid's colours as an image.
    fn rebuild_image(&self) -> (r: Image)
        requires
            self.wf(),
        ensures
            r.valid(),
            r.width == self.grid_spec().width_spec(),
            r.height == self.grid_spec().height_spec(),
            forall|x: int, y: int|
                self.grid_spec().in_bounds(x, y) ==> #[trigger] r.pixels@[y * r.width + x]
                    == self.grid_spec().pixel_at(x, y),
    {
        let width = self.grid.width();
        let height = self.grid.height();
        let pixels = self.grid.to_pixels();
        Image { width, height, pixels }
    }

    /// Resizes to `width` by `height`: first horizontally, then vertically by
    /// the same seam logic on the transposed grid. Returns the resulting
    /// image. The points it touched are then available from
    /// `get_removed_points`, each in the frame of the grid as it stood before
    /// its phase (horizontal, then vertical), with `x` the column.
    #[verifier::rlimit(100)]
    pub fn resize(&mut self, width: usize, height: usize) -> (r: Result<Image, CarveError>)
        requires
            old(self).wf(),
        ensures
            resized(*old(self), width as int, height as int, *final(self), r),
    {
        if width == 0 || height == 0 {
            return Err(CarveError::InvalidDimensions);
        }
        self.removed_points = Vec::new();
        let initial_width = self.grid.width();
        let initial_height = self.grid.height();
        let ghost start = self.grid;
        proof {
            assert(self.points_spec() =~= Seq::<(usize, usize)>::empty());
        }
        if width > initial_width {
            self.grow_distance(width - initial_width);
        } else if width < initial_width {
            let ghost before = self.grid;
            self.grid.reset_positions();
            proof {
                lemma_same_pixels(before, self.grid);
                lemma_own_positions(before, self.grid);
            }
            self.shrink_distance(initial_width - width);
        }
        let ghost mid = self.grid;
        let ghost q1 = self.points_spec();
        proof {
            assert(q1.subrange(0, 0) =~= Seq::<(usize, usize)>::empty());
            assert(q1.subrange(0, q1.len() as int) =~= q1);
            assert(phase_done(start@, mid@, width as int, q1));
        }
        let from = self.removed_points.len();
        let ghost q2: Seq<(usize, usize)> = Seq::empty();
        if height > initial_height {
            self.rotate();
            self.grow_distance(height - initial_height);
            proof {
                q2 = self.points_spec().subrange(from as int, self.points_spec().len() as int);
                assert(self.points_spec() =~= q1 + q2);
            }
            let ghost widened = self.grid;
            self.rotate();
            proof {
                lemma_transpose_twice(widened@, widened.width_spec());
            }
            self.rotate_removed_points(from);
        } else if height < initial_height {
            self.rotate();
            let ghost rotated = self.grid;
            self.grid.reset_positions();
            proof {
                lemma_same_pixels(rotated, self.grid);
                lemma_own_positions(rotated, self.grid);
            }
            self.shrink_distance(initial_height - height);
            proof {
                q2 = self.points_spec().subrange(from as int, self.points_spec().len() as int);
                assert(self.points_spec() =~= q1 + q2);
            }
            let ghost shrunk = self.grid;
            self.rotate();
            proof {
                lemma_transpose_twice(shrunk@, shrunk.width_spec());
            }
            self.rotate_removed_points(from);
        }
        proof {
            assert(transpose(mid@, width as int)[0].len() == initial_height);
            assert(phase_done(
                transpose(mid@, width as int),
                transpose(self.grid@, width as int),
                height as int,
                q2,
            ));
            assert(self.points_spec() =~= q1 + swapped(q2));
            assert(two_phases(
                start@,
                mid@,
                self.grid@,
                width as int,
                height as int,
                q1,
                q2,
                self.points_spec(),
            ));
        }
        Ok(self.rebuild_image())
    }


    /// Runs a full cost pass: every cell gets its energy and path cost.
    pub fn calculate_energy(&mut self)
        requires
            old(self).wf(),
        ensures
            final(self).wf(),
            final(self).grid_spec().width_spec() == old(self).grid_spec().width_spec(),
            final(self).grid_spec().height_spec() == old(self).grid_spec().height_spec(),
            costs_valid(final(self).grid_spec()),
            forall|x: int, y: int|
                old(self).grid_spec().in_bounds(x, y) ==> #[trigger] final(self).grid_spec().pixel_at(x, y)
                    == old(self).grid_spec().pixel_at(x, y) && final(self).grid_spec()@[y][x].original_position
                    == old(self).grid_spec()@[y][x].original_position,
            final(self).points_spec() == old(self).points_spec(),
    {
        calculate_energy(&mut self.grid);
    }

    /// The energy of every cell, row by row.
    pub fn get_pixel_energy(&self) -> (r: Vec<Vec<u32>>)
        requires
            self.wf(),
        ensures
            r@.len() == self.grid_spec().height_spec(),
            forall|y: int| 0 <= y < r@.len() ==> (#[trigger] r@[y])@.len() == self.grid_spec().width_spec(),
            forall|x: int, y: int|
                self.grid_spec().in_bounds(x, y) ==> #[trigger] r@[y]@[x] == self.grid_spec()@[y][x].energy,
    {
        let w = self.grid.width();
        let h = self.grid.height();
        let mut r: Vec<Vec<u32>> = Vec::new();
        let mut y: usize = 0;
        while y < h
            invariant
                y <= h,
                self.wf(),
                w == self.grid_spec().width_spec(),
                h == self.grid_spec().height_spec(),
                r@.len() == y,
                forall|j: int| 0 <= j < y ==> (#[trigger] r@[j])@.len() == w,
                forall|x: int, j: int|
                    0 <= x < w && 0 <= j < y ==> #[trigger] r@[j]@[x] == self.grid_spec()@[j][x].energy,
            decreases h - y,
        {
            let mut row: Vec<u32> = Vec::new();
            let mut x: usize = 0;
            while x < w
                invariant
                    x <= w,
                    y < h,
                    self.wf(),
                    w == self.grid_spec().width_spec(),
                    h == self.grid_spec().height_spec(),
                    row@.len() == x,
                    forall|i: int| 0 <= i < x ==> #[trigger] row@[i] == self.grid_spec()@[y as int][i].energy,
                decreases w - x,
            {
                row.push(self.grid.get(x, y).energy);
                x = x + 1;
            }
            r.push(row);
            y = y + 1;
        }
        r
    }

    /// The path cost of every cell, row by row.
    pub fn get_path_energy(&self) -> (r: Vec<Vec<u128>>)
        requires
            self.wf(),
        ensures
            r@.len() == self.grid_spec().height_spec(),
            forall|y: int| 0 <= y < r@.len() ==> (#[trigger] r@[y])@.len() == self.grid_spec().width_spec(),
            forall|x: int, y: int|
                self.grid_spec().in_bounds(x, y) ==> #[trigger] r@[y]@[x] == self.grid_spec()@[y][x].path_cost,
    {
        let w = self.grid.width();
        let h = self.grid.height();
        let mut r: Vec<Vec<u128>> = Vec::new();
        let mut y: usize = 0;
        while y < h
            invariant
                y <= h,
                self.wf(),
                w == self.grid_spec().width_spec(),
                h == self.grid_spec().height_spec(),
                r@.len() == y,
                forall|j: int| 0 <= j < y ==> (#[trigger] r@[j])@.len() == w,
                forall|x: int, j: int|
                    0 <= x < w && 0 <= j < y ==> #[trigger] r@[j]@[x] == self.grid_spec()@[j][x].path_cost,
            decreases h - y,
        {
            let mut row: Vec<u128> = Vec::new();
            let mut x: usize = 0;
            while x < w
                invariant
                    x <= w,
                    y < h,
                    self.wf(),
                    w == self.grid_spec().width_spec(),
                    h == self.grid_spec().height_spec(),
                    row@.len() == x,
                    forall|i: int| 0 <= i < x ==> #[trigger] row@[i] == self.grid_spec()@[y as int][i].path_cost,
                decreases w - x,
            {
                row.push(self.grid.get(x, y).path_cost);
                x = x + 1;
            }
            r.push(row);
            y = y + 1;
        }
        r
    }

    /// The start of the cheapest seam: the leftmost cell of the last row with
    /// the smallest path cost.
    pub fn get_path_start(&self) -> (r: (usize, usize))
        requires
            self.wf(),
        ensures
            r.1 == self.grid_spec().height_spec() - 1,
            is_leftmost_min(self.grid_spec()@[r.1 as int], r.0 as int),
    {
        get_path_start(&self.grid)
    }

    /// The walk from `(start_x, start_y)` up to row 0, each step to the
    /// cheapest parent; from the last row, the seam that starts there.
    pub fn find_path(&self, start_x: usize, start_y: usize) -> (r: Vec<(usize, usize)>)
        requires
            self.wf(),
            self.grid_spec().in_bounds(start_x as int, start_y as int),
        ensures
            is_walk_from(self.grid_spec(), start_x as int, start_y as int, r@),
            forall|i: int| 0 <= i < r@.len() - 1 ==> -1 <= (#[trigger] r@[i + 1]).0 - r@[i].0 <= 1,
            start_y == self.grid_spec().height_spec() - 1 ==> is_seam_from(
                self.grid_spec(),
                start_x as int,
                r@,
            ) && is_connected_seam(self.grid_spec(), r@),
            costs_valid(self.grid_spec()) ==> walk_energy(self.grid_spec()@, r@, 0)
                == self.grid_spec()@[start_y as int][start_x as int].path_cost,
    {
        find_path(&self.grid, start_x, start_y)
    }

}

} // verus!
