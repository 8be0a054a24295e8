//! Likelihood field: a rasterized "how likely is a lidar return here" map.
//!
//! Built by rasterizing reference points (or occupied grid cells), running a
//! chamfer distance transform, and mapping distance to `exp(-d²/2σ²)`. Matching
//! scores a candidate pose by summing lookups of the transformed query points.

use vstd::arithmetic::div_mod::{lemma_fundamental_div_mod, lemma_mod_bound};
use vstd::arithmetic::power2::{lemma2_to64_rest, lemma_pow2_adds, pow2};
use vstd::prelude::*;

use crate::convert::{floor_to_i64, floored, MAX_EXACT};
use crate::error::{Reason, SlamError};
use crate::float::{
    law_order_is_value_order, lemma_units_of_constants, unit, F32, F64, INFINITE32, INFINITE64,
};
use crate::grid::cellmath::{cell_at, cell_in_bounds, cell_of, exact_cell, floor_cell, inside, world_to_cell};
use crate::grid::{index_of, lemma_index_in_grid, lemma_index_splits, HALF, ONE32};
use crate::matcher::{as_f64, float_of_count};
use crate::numerics::{
    ceil, ceil_of, deterministic, difference, difference32, exp32, exp_of32, floor, floor_of,
    minus, minus32, narrow, narrow_of, over, over32, plus, plus32, product, product32, quotient,
    quotient32, sum, sum32, times, times32, Numerics,
};
use crate::pose::Point2;

verus! {

/// Chamfer weight of a diagonal step, √2; an orthogonal step weighs 1.
pub const DIAGONAL: u32 = 0x3fb5_04f3;

/// 2.
pub const TWO32: u32 = 0x4000_0000;

/// A blurred occupancy-likelihood raster over a bounded region.
#[derive(Debug)]
pub struct LikelihoodField {
    /// Cell side length, metres.
    pub resolution_m: F64,
    /// World coordinates of the outer corner of cell `(0, 0)`.
    pub origin: Point2,
    /// Width, cells.
    pub width: usize,
    /// Height, cells.
    pub height: usize,
    /// Row-major likelihood values in `0..=1`.
    pub values: Vec<F32>,
}

/// What a [`LikelihoodField`] holds.
pub ghost struct FieldModel {
    /// Cell side length, metres.
    pub resolution_m: F64,
    /// World coordinates of the outer corner of cell `(0, 0)`.
    pub origin: Point2,
    /// Width, cells.
    pub width: usize,
    /// Height, cells.
    pub height: usize,
    /// Row-major likelihood values.
    pub values: Seq<F32>,
}

impl View for LikelihoodField {
    type V = FieldModel;

    open spec fn view(&self) -> FieldModel {
        FieldModel {
            resolution_m: self.resolution_m,
            origin: self.origin,
            width: self.width,
            height: self.height,
            values: self.values@,
        }
    }
}

// ---- Extent ----

/// The least and greatest coordinates of the finite ones of the first `n`
/// points; infinite, the wrong way round, if there are none.
pub open spec fn extent(points: Seq<Point2>, n: nat) -> (Point2, Point2)
    decreases n,
{
    let far = F64 { bits: INFINITE64 };
    if n == 0 {
        (Point2 { x: far, y: far }, Point2 { x: far.negated(), y: far.negated() })
    } else {
        let (low, high) = extent(points, (n - 1) as nat);
        let p = points[n - 1];
        if p.is_finite() {
            (
                Point2 { x: low.x.min(p.x), y: low.y.min(p.y) },
                Point2 { x: high.x.max(p.x), y: high.y.max(p.y) },
            )
        } else {
            (low, high)
        }
    }
}

/// Compute [`extent`].
fn extent_of(points: &Vec<Point2>) -> (r: (Point2, Point2))
    ensures
        r == extent(points@, points@.len()),
{
    let far = F64 { bits: INFINITE64 };
    let mut low = Point2::new(far, far);
    let mut high = Point2::new(far.negated(), far.negated());
    for i in 0..points.len()
        invariant
            (low, high) == extent(points@, i as nat),
    {
        let p = points[i];
        if p.is_finite() {
            low = Point2::new(low.x.min(p.x), low.y.min(p.y));
            high = Point2::new(high.x.max(p.x), high.y.max(p.y));
        }
    }
    (low, high)
}

/// Number of cells for a number of cell widths: its floor, but at least 1; `None`
/// if there are too many cells to count.
pub open spec fn cell_count(widths: F64) -> Option<usize> {
    if (F64 { bits: MAX_EXACT }).le(widths) {
        None
    } else {
        match floored(widths) {
            Some(c) => if c > usize::MAX {
                None
            } else if c >= 1 {
                Some(c as usize)
            } else {
                Some(1)
            },
            None => Some(1),
        }
    }
}

/// Compute [`cell_count`].
pub fn count_cells(widths: F64) -> (r: Option<usize>)
    ensures
        r == cell_count(widths),
        r matches Some(c) ==> c >= 1,
{
    if (F64 { bits: MAX_EXACT }).le(widths) {
        return None;
    }
    match floor_to_i64(widths) {
        Some(c) => if c < 1 {
            Some(1)
        } else if c as u64 > usize::MAX as u64 {
            None
        } else {
            Some(c as usize)
        },
        None => Some(1),
    }
}

/// Cells needed to cover `span` metres (at least 1); `None` if there are too many to
/// count.
pub fn cells_for_span<N: Numerics>(span: F64, resolution: F64) -> (r: Option<usize>)
    ensures
        deterministic::<N>() ==> r == cell_count(ceil_of::<N>(quotient::<N>(span, resolution))),
        r matches Some(c) ==> c >= 1,
{
    count_cells(ceil::<N>(over::<N>(span, resolution)))
}

/// The cell of a world point in a raster.
pub fn point_to_cell<N: Numerics>(p: Point2, origin: Point2, resolution: F64) -> (r: Option<
    (i64, i64),
>)
    ensures
        deterministic::<N>() ==> r == cell_of::<N>(p, origin, resolution),
        r matches Some(cell) ==> exact_cell(cell),
{
    world_to_cell::<N>(p, origin, resolution)
}

/// Check cell coordinates against raster bounds, returning unsigned indices if
/// inside.
pub fn in_bounds(cx: i64, cy: i64, width: usize, height: usize) -> (r: Option<(usize, usize)>)
    ensures
        r == (if inside((cx, cy), width, height) {
            Some((cx as usize, cy as usize))
        } else {
            None
        }),
        r matches Some((x, y)) ==> x == cx && y == cy,
{
    cell_in_bounds((cx, cy), width, height)
}

// ---- Distance transform ----

/// Some finite one of the first `n` points falls into the cell with index `i`.
pub open spec fn occupied<N: Numerics>(
    points: Seq<Point2>,
    origin: Point2,
    resolution: F64,
    width: usize,
    height: usize,
    n: nat,
    i: int,
) -> bool {
    exists|k: int|
        0 <= k < n && points[k].is_finite() && (#[trigger] cell_of::<N>(
            points[k],
            origin,
            resolution,
        ) matches Some(cell) && inside(cell, width, height) && index_of(cell, width) == i)
}

/// Distance 0 in the cells of the points, infinite elsewhere.
pub open spec fn seeded<N: Numerics>(
    points: Seq<Point2>,
    origin: Point2,
    resolution: F64,
    width: usize,
    height: usize,
) -> Seq<F32> {
    Seq::new(
        (width * height) as nat,
        |i: int|
            if occupied::<N>(points, origin, resolution, width, height, points.len(), i) {
                F32 { bits: 0 }
            } else {
                F32 { bits: INFINITE32 }
            },
    )
}

/// Compute [`seeded`].
fn seed<N: Numerics>(
    points: &Vec<Point2>,
    origin: Point2,
    resolution: F64,
    width: usize,
    height: usize,
) -> (r: Vec<F32>)
    requires
        width * height <= usize::MAX,
    ensures
        r@.len() == width * height,
        deterministic::<N>() ==> r@ == seeded::<N>(points@, origin, resolution, width, height),
{
    let cells: usize = width * height;
    let mut dist: Vec<F32> = vec![F32 { bits: INFINITE32 }; cells];
    for k in 0..points.len()
        invariant
            dist@.len() == width * height,
            dist@.len() <= usize::MAX,
            deterministic::<N>() ==> forall|i: int|
                0 <= i < dist@.len() ==> #[trigger] dist@[i] == (if occupied::<N>(
                    points@,
                    origin,
                    resolution,
                    width,
                    height,
                    k as nat,
                    i,
                ) {
                    F32 { bits: 0 }
                } else {
                    F32 { bits: INFINITE32 }
                }),
    {
        let ghost before = dist@;
        let cell = if points[k].is_finite() {
            point_to_cell::<N>(points[k], origin, resolution)
        } else {
            None
        };
        match cell {
            Some((cx, cy)) => match in_bounds(cx, cy, width, height) {
                Some((x, y)) => {
                    proof {
                        lemma_index_in_grid(x as int, y as int, width as int, height as int);
                        assert(y * width <= y * width + x);
                    }
                    dist.set(y * width + x, F32 { bits: 0 });
                },
                None => {},
            },
            None => {},
        }
        proof {
            if deterministic::<N>() {
                assert forall|i: int| 0 <= i < dist@.len() implies #[trigger] dist@[i] == (
                if occupied::<N>(points@, origin, resolution, width, height, (k + 1) as nat, i) {
                    F32 { bits: 0 }
                } else {
                    F32 { bits: INFINITE32 }
                }) by {
                    let was = occupied::<N>(points@, origin, resolution, width, height, k as nat, i);
                    let now = occupied::<N>(
                        points@,
                        origin,
                        resolution,
                        width,
                        height,
                        (k + 1) as nat,
                        i,
                    );
                    let own = cell matches Some(c) && inside(c, width, height) && index_of(c, width)
                        == i;
                    if points@[k as int].is_finite() {
                        assert(cell_of::<N>(points@[k as int], origin, resolution) == cell);
                    }
                    assert(before[i] == (if was {
                        F32 { bits: 0 }
                    } else {
                        F32 { bits: INFINITE32 }
                    }));
                    if was {
                        let j = choose|j: int|
                            0 <= j < k && points@[j].is_finite() && (#[trigger] cell_of::<N>(
                                points@[j],
                                origin,
                                resolution,
                            ) matches Some(c) && inside(c, width, height) && index_of(c, width)
                                == i);
                        assert(0 <= j < k + 1);
                    }
                    assert(now == (was || own));
                }
            }
        }
    }
    proof {
        if deterministic::<N>() {
            assert(dist@ =~= seeded::<N>(points@, origin, resolution, width, height));
        }
    }
    dist
}

/// The lesser of `d` and a neighbour's distance plus a step.
pub open spec fn closer<N: Numerics>(d: F32, neighbour: F32, step: F32) -> F32 {
    if sum32::<N>(neighbour, step).lt(d) {
        sum32::<N>(neighbour, step)
    } else {
        d
    }
}

/// The cell `(x + dx, y + dy)` as a neighbour, one of the four before or behind
/// cell `i` in row-major order: its index, if it lies in the raster.
pub open spec fn neighbour(i: int, dx: int, dy: int, width: int, height: int) -> Option<int> {
    let (x, y) = (i % width + dx, i / width + dy);
    if 0 <= x < width && 0 <= y < height {
        Some(y * width + x)
    } else {
        None
    }
}

/// `d`, or the way through the neighbour at `(dx, dy)` if that is shorter.
pub open spec fn through<N: Numerics>(
    dist: Seq<F32>,
    d: F32,
    i: int,
    dx: int,
    dy: int,
    step: u32,
    width: int,
    height: int,
) -> F32 {
    match neighbour(i, dx, dy, width, height) {
        Some(j) => closer::<N>(d, dist[j], F32 { bits: step }),
        None => d,
    }
}

/// The distance of cell `i` by way of its neighbours on one side: the one beside
/// it, the one in the next row, and the two diagonal ones. `side` is -1 for the
/// cells before it in row-major order and 1 for those behind.
pub open spec fn relaxed<N: Numerics>(
    dist: Seq<F32>,
    i: int,
    side: int,
    width: int,
    height: int,
) -> F32 {
    let d1 = through::<N>(dist, dist[i], i, side, 0, ONE32, width, height);
    let d2 = through::<N>(dist, d1, i, 0, side, ONE32, width, height);
    let d3 = through::<N>(dist, d2, i, side, side, DIAGONAL, width, height);
    through::<N>(dist, d3, i, -side, side, DIAGONAL, width, height)
}

/// The distances after the first `n` cells, from the first on, have been relaxed
/// by way of the cells before them.
pub open spec fn forward<N: Numerics>(dist: Seq<F32>, width: int, height: int, n: nat) -> Seq<F32>
    decreases n,
{
    if n == 0 {
        dist
    } else {
        let before = forward::<N>(dist, width, height, (n - 1) as nat);
        before.update(n - 1, relaxed::<N>(before, n - 1, -1, width, height))
    }
}

/// The distances after `n` cells, from the last on, have been relaxed by way of
/// the cells behind them.
pub open spec fn backward<N: Numerics>(dist: Seq<F32>, width: int, height: int, n: nat) -> Seq<F32>
    decreases n,
{
    if n == 0 {
        dist
    } else {
        let before = backward::<N>(dist, width, height, (n - 1) as nat);
        let i = dist.len() - n;
        before.update(i, relaxed::<N>(before, i, 1, width, height))
    }
}

/// Both passes of the chamfer distance transform.
pub open spec fn chamfered<N: Numerics>(dist: Seq<F32>, width: int, height: int) -> Seq<F32> {
    backward::<N>(
        forward::<N>(dist, width, height, dist.len()),
        width,
        height,
        dist.len(),
    )
}

/// Compute [`through`].
fn step_through<N: Numerics>(
    dist: &Vec<F32>,
    d: F32,
    i: usize,
    dx: i64,
    dy: i64,
    step: u32,
    width: usize,
    height: usize,
) -> (r: F32)
    requires
        dist@.len() == width * height,
        i < dist@.len(),
        -1 <= dx <= 1,
        -1 <= dy <= 1,
    ensures
        deterministic::<N>() ==> r == through::<N>(
            dist@,
            d,
            i as int,
            dx as int,
            dy as int,
            step,
            width as int,
            height as int,
        ),
        r == d || r.lt(d),
{
    proof {
        assert(width > 0) by (nonlinear_arith)
            requires
                0 < width * height,
                0 <= width,
        ;
        lemma_index_splits(i as int, width as int, height as int);
    }
    let x: usize = i % width;
    let y: usize = i / width;
    if (dx < 0 && x == 0) || (dy < 0 && y == 0) || (dx > 0 && x == width - 1) || (dy > 0 && y
        == height - 1) {
        return d;
    }
    let nx: usize = if dx < 0 {
        x - 1
    } else if dx > 0 {
        x + 1
    } else {
        x
    };
    let ny: usize = if dy < 0 {
        y - 1
    } else if dy > 0 {
        y + 1
    } else {
        y
    };
    proof {
        lemma_index_in_grid(nx as int, ny as int, width as int, height as int);
        assert(ny * width + nx < dist.len());
    }
    let way = plus32::<N>(dist[ny * width + nx], F32 { bits: step });
    if way.lt(d) {
        way
    } else {
        d
    }
}

/// Compute [`relaxed`].
fn relax<N: Numerics>(
    dist: &Vec<F32>,
    i: usize,
    side: i64,
    width: usize,
    height: usize,
) -> (r: F32)
    requires
        dist@.len() == width * height,
        i < dist@.len(),
        side == 1 || side == -1,
    ensures
        deterministic::<N>() ==> r == relaxed::<N>(
            dist@,
            i as int,
            side as int,
            width as int,
            height as int,
        ),
        r == dist@[i as int] || r.lt(dist@[i as int]),
{
    let d1 = step_through::<N>(dist, dist[i], i, side, 0, ONE32, width, height);
    let d2 = step_through::<N>(dist, d1, i, 0, side, ONE32, width, height);
    let d3 = step_through::<N>(dist, d2, i, side, side, DIAGONAL, width, height);
    step_through::<N>(dist, d3, i, -side, side, DIAGONAL, width, height)
}

/// Two-pass chamfer distance transform, distances in cell units. No distance
/// grows.
pub fn chamfer<N: Numerics>(dist: &mut Vec<F32>, width: usize, height: usize)
    requires
        old(dist)@.len() == width * height,
    ensures
        final(dist)@.len() == old(dist)@.len(),
        forall|i: int|
            0 <= i < old(dist)@.len() ==> (#[trigger] final(dist)@[i]) == old(dist)@[i] || final(dist)@[i].lt(old(dist)@[i]),
        deterministic::<N>() ==> final(dist)@ == chamfered::<N>(
            old(dist)@,
            width as int,
            height as int,
        ),
{
    let cells: usize = dist.len();
    for i in 0..cells
        invariant
            cells == dist@.len(),
            cells == old(dist)@.len(),
            cells == width * height,
            forall|j: int|
                0 <= j < cells ==> (#[trigger] dist@[j]) == old(dist)@[j] || dist@[j].lt(
                    old(dist)@[j],
                ),
            deterministic::<N>() ==> dist@ == forward::<N>(
                old(dist)@,
                width as int,
                height as int,
                i as nat,
            ),
    {
        let d = relax::<N>(dist, i, -1, width, height);
        dist.set(i, d);
    }
    let ghost middle = dist@;
    for k in 0..cells
        invariant
            cells == dist@.len(),
            cells == old(dist)@.len(),
            cells == middle.len(),
            cells == width * height,
            forall|j: int|
                0 <= j < cells ==> (#[trigger] dist@[j]) == old(dist)@[j] || dist@[j].lt(
                    old(dist)@[j],
                ),
            deterministic::<N>() ==> dist@ == backward::<N>(
                middle,
                width as int,
                height as int,
                k as nat,
            ),
    {
        let i: usize = cells - 1 - k;
        let d = relax::<N>(dist, i, 1, width, height);
        dist.set(i, d);
    }
}

// ---- The field ----

/// `1 / (2σ²)` in single precision.
pub open spec fn sharpness<N: Numerics>(sigma_m: F64) -> F32 {
    let s = narrow_of::<N>(sigma_m);
    quotient32::<N>(
        F32 { bits: ONE32 },
        product32::<N>(product32::<N>(F32 { bits: TWO32 }, s), s),
    )
}

/// The likelihood at a distance of `cells` cell widths.
pub open spec fn likelihood<N: Numerics>(cells: F32, resolution: F32, sharp: F32) -> F32 {
    let d = product32::<N>(cells, resolution);
    exp_of32::<N>(product32::<N>(product32::<N>(d.negated(), d), sharp))
}

/// The corner of the raster: `margin_m` below the least coordinates.
pub open spec fn raster_origin<N: Numerics>(low: Point2, margin_m: F64) -> Point2 {
    Point2 { x: difference::<N>(low.x, margin_m), y: difference::<N>(low.y, margin_m) }
}

/// The number of cells from `origin` to `margin_m` beyond `high`, if it can be
/// counted.
pub open spec fn raster_side<N: Numerics>(
    origin: F64,
    high: F64,
    margin_m: F64,
    resolution_m: F64,
) -> Option<usize> {
    cell_count(
        ceil_of::<N>(
            quotient::<N>(difference::<N>(sum::<N>(high, margin_m), origin), resolution_m),
        ),
    )
}

/// What [`LikelihoodField::from_points`] builds.
pub open spec fn field_of<N: Numerics>(
    points: Seq<Point2>,
    resolution_m: F64,
    sigma_m: F64,
    margin_m: F64,
    max_cells: usize,
) -> Result<FieldModel, SlamError> {
    let (low, high) = extent(points, points.len());
    let origin = raster_origin::<N>(low, margin_m);
    let sides = (
        raster_side::<N>(origin.x, high.x, margin_m, resolution_m),
        raster_side::<N>(origin.y, high.y, margin_m, resolution_m),
    );
    if !low.is_finite() {
        Err(SlamError::MatchFailed { reason: Reason::NoFiniteReference })
    } else {
        match sides {
            (Some(width), Some(height)) => if width * height > max_cells {
                Err(SlamError::GridTooLarge { cells: usize::MAX, limit: max_cells })
            } else {
                let dist = chamfered::<N>(
                    seeded::<N>(points, origin, resolution_m, width, height),
                    width as int,
                    height as int,
                );
                Ok(
                    FieldModel {
                        resolution_m,
                        origin,
                        width,
                        height,
                        values: dist.map_values(
                            |d: F32|
                                likelihood::<N>(
                                    d,
                                    narrow_of::<N>(resolution_m),
                                    sharpness::<N>(sigma_m),
                                ),
                        ),
                    },
                )
            },
            _ => Err(SlamError::GridTooLarge { cells: usize::MAX, limit: max_cells }),
        }
    }
}

impl FieldModel {
    /// At least one cell, and one value per cell.
    pub open spec fn wf(self) -> bool {
        &&& self.width >= 1
        &&& self.height >= 1
        &&& self.values.len() == self.width * self.height
    }

    /// The value of a cell; 0 outside the raster.
    pub open spec fn sample(self, cell: (i64, i64)) -> F32 {
        if inside(cell, self.width, self.height) {
            self.values[index_of(cell, self.width)]
        } else {
            F32 { bits: 0 }
        }
    }

    /// Nearest-cell likelihood at `p`.
    pub open spec fn nearest<N: Numerics>(self, p: Point2) -> F32 {
        match cell_of::<N>(p, self.origin, self.resolution_m) {
            Some(cell) => self.sample(cell),
            None => F32 { bits: 0 },
        }
    }

    /// Bilinearly interpolated likelihood at `p`: between the four cells whose
    /// centres surround it; 0 outside the raster.
    pub open spec fn smooth<N: Numerics>(self, p: Point2) -> F32 {
        let half = F64 { bits: HALF };
        let ux = quotient::<N>(difference::<N>(p.x, self.origin.x), self.resolution_m);
        let uy = quotient::<N>(difference::<N>(p.y, self.origin.y), self.resolution_m);
        let gx = difference::<N>(ux, half);
        let gy = difference::<N>(uy, half);
        match (cell_at(ux, uy), cell_at(gx, gy)) {
            (Some(cell), Some((x0, y0))) => if inside(cell, self.width, self.height) {
                let fx = narrow_of::<N>(difference::<N>(gx, floor_of::<N>(gx)));
                let fy = narrow_of::<N>(difference::<N>(gy, floor_of::<N>(gy)));
                let (x1, y1) = ((x0 + 1) as i64, (y0 + 1) as i64);
                let top = mixed::<N>(self.sample((x0, y0)), self.sample((x1, y0)), fx);
                let bottom = mixed::<N>(self.sample((x0, y1)), self.sample((x1, y1)), fx);
                mixed::<N>(top, bottom, fy)
            } else {
                F32 { bits: 0 }
            },
            _ => F32 { bits: 0 },
        }
    }
}

/// `a + (b - a) * t`.
pub open spec fn mixed<N: Numerics>(a: F32, b: F32, t: F32) -> F32 {
    sum32::<N>(a, product32::<N>(difference32::<N>(b, a), t))
}

/// Compute [`mixed`].
fn mix<N: Numerics>(a: F32, b: F32, t: F32) -> (r: F32)
    ensures
        deterministic::<N>() ==> r == mixed::<N>(a, b, t),
{
    plus32::<N>(a, times32::<N>(minus32::<N>(b, a), t))
}

// ---- Pooling ----

/// Number of blocks of `factor` cells that cover `side` cells.
pub open spec fn blocks(side: int, factor: int) -> int {
    (side - 1) / factor + 1
}

/// The block of cell `i`, in a raster of `width` columns.
pub open spec fn block_of(i: int, width: int, factor: int) -> int {
    (i / width / factor) * blocks(width, factor) + (i % width) / factor
}

/// The greatest of 0 and those of the first `n` values that lie in block `j`.
pub open spec fn block_max(values: Seq<F32>, width: int, factor: int, j: int, n: nat) -> F32
    decreases n,
{
    if n == 0 {
        F32 { bits: 0 }
    } else {
        let before = block_max(values, width, factor, j, (n - 1) as nat);
        if block_of(n - 1, width, factor) == j && before.lt(values[n - 1]) {
            values[n - 1]
        } else {
            before
        }
    }
}

/// The size of a block, never 0.
pub open spec fn pool_factor(factor: usize) -> usize {
    if factor == 0 {
        1
    } else {
        factor
    }
}

/// The field pooled by the greatest value of each block.
pub open spec fn pooled<N: Numerics>(field: FieldModel, factor: usize) -> FieldModel {
    let f = pool_factor(factor);
    let width = blocks(field.width as int, f as int);
    let height = blocks(field.height as int, f as int);
    FieldModel {
        resolution_m: product::<N>(field.resolution_m, float_of_count::<N>(f as u64)),
        origin: field.origin,
        width: width as usize,
        height: height as usize,
        values: Seq::new(
            (width * height) as nat,
            |j: int|
                block_max(
                    field.values,
                    field.width as int,
                    f as int,
                    j,
                    field.values.len(),
                ),
        ),
    }
}

/// A block of the raster lies in the pooled raster.
proof fn lemma_block_in_pool(i: int, width: int, height: int, factor: int)
    requires
        0 <= i < width * height,
        0 < width,
        0 < factor,
    ensures
        0 <= i / width / factor < blocks(height, factor),
        0 <= (i % width) / factor < blocks(width, factor),
        0 <= block_of(i, width, factor) < blocks(width, factor) * blocks(height, factor),
{
    lemma_index_splits(i, width, height);
    let (x, y) = (i % width, i / width);
    vstd::arithmetic::div_mod::lemma_div_is_ordered(x, width - 1, factor);
    vstd::arithmetic::div_mod::lemma_div_is_ordered(y, height - 1, factor);
    vstd::arithmetic::div_mod::lemma_div_pos_is_pos(x, factor);
    vstd::arithmetic::div_mod::lemma_div_pos_is_pos(y, factor);
    lemma_index_in_grid(x / factor, y / factor, blocks(width, factor), blocks(height, factor));
}

/// A side has at least one block and no more blocks than cells.
proof fn lemma_blocks(side: int, factor: int)
    requires
        side >= 1,
        factor >= 1,
    ensures
        1 <= blocks(side, factor) <= side,
{
    vstd::arithmetic::div_mod::lemma_div_pos_is_pos(side - 1, factor);
    vstd::arithmetic::div_mod::lemma_div_nonincreasing(side - 1, factor);
}

impl LikelihoodField {
    /// Build a field from reference points.
    ///
    /// The raster covers the bounding box of the finite points expanded by
    /// `margin_m` on every side, at `resolution_m` per cell, smoothed with
    /// Gaussian σ = `sigma_m`.
    ///
    /// [`SlamError::MatchFailed`] if no finite points remain;
    /// [`SlamError::GridTooLarge`] if the raster would exceed `max_cells`, or has too
    /// many cells to count.
    pub fn from_points<N: Numerics>(
        points: &Vec<Point2>,
        resolution_m: F64,
        sigma_m: F64,
        margin_m: F64,
        max_cells: usize,
    ) -> (r: Result<LikelihoodField, SlamError>)
        ensures
            r matches Ok(field) ==> field@.wf(),
            !extent(points@, points@.len()).0.is_finite() ==> r == Err::<
                LikelihoodField,
                SlamError,
            >(SlamError::MatchFailed { reason: Reason::NoFiniteReference }),
            extent(points@, points@.len()).0.is_finite() && r is Err ==> r == Err::<
                LikelihoodField,
                SlamError,
            >(SlamError::GridTooLarge { cells: usize::MAX, limit: max_cells }),
            deterministic::<N>() ==> match field_of::<N>(
                points@,
                resolution_m,
                sigma_m,
                margin_m,
                max_cells,
            ) {
                Ok(model) => r matches Ok(field) && field@ == model,
                Err(e) => r == Err::<LikelihoodField, SlamError>(e),
            },
    {
        let (low, high) = extent_of(points);
        if !low.is_finite() {
            return Err(SlamError::MatchFailed { reason: Reason::NoFiniteReference });
        }
        let origin = Point2::new(minus::<N>(low.x, margin_m), minus::<N>(low.y, margin_m));
        let span_x = minus::<N>(plus::<N>(high.x, margin_m), origin.x);
        let span_y = minus::<N>(plus::<N>(high.y, margin_m), origin.y);
        let (width, height): (usize, usize) = match (
            cells_for_span::<N>(span_x, resolution_m),
            cells_for_span::<N>(span_y, resolution_m),
        ) {
            (Some(width), Some(height)) => (width, height),
            _ => {
                return Err(SlamError::GridTooLarge { cells: usize::MAX, limit: max_cells });
            },
        };
        match width.checked_mul(height) {
            Some(cells) => {
                if cells > max_cells {
                    return Err(SlamError::GridTooLarge { cells: usize::MAX, limit: max_cells });
                }
            },
            None => {
                return Err(SlamError::GridTooLarge { cells: usize::MAX, limit: max_cells });
            },
        }
        let mut dist = seed::<N>(points, origin, resolution_m, width, height);
        chamfer::<N>(&mut dist, width, height);
        let resolution = narrow::<N>(resolution_m);
        let sigma = narrow::<N>(sigma_m);
        let sharp = over32::<N>(
            F32 { bits: ONE32 },
            times32::<N>(times32::<N>(F32 { bits: TWO32 }, sigma), sigma),
        );
        let mut values: Vec<F32> = Vec::new();
        for i in 0..dist.len()
            invariant
                values@.len() == i,
                deterministic::<N>() ==> values@ =~= dist@.take(i as int).map_values(
                    |d: F32| likelihood::<N>(d, resolution, sharp),
                ),
        {
            let d = times32::<N>(dist[i], resolution);
            values.push(exp32::<N>(times32::<N>(times32::<N>(d.negated(), d), sharp)));
        }
        proof {
            assert(dist@.take(dist@.len() as int) =~= dist@);
            if deterministic::<N>() {
                assert(values@ =~= dist@.map_values(
                    |d: F32|
                        likelihood::<N>(d, narrow_of::<N>(resolution_m), sharpness::<N>(sigma_m)),
                ));
            }
        }
        Ok(LikelihoodField { resolution_m, origin, width, height, values })
    }

    /// The value of a cell; 0 outside the raster.
    pub fn sample(&self, cx: i64, cy: i64) -> (r: F32)
        requires
            self@.wf(),
        ensures
            r == self@.sample((cx, cy)),
    {
        match in_bounds(cx, cy, self.width, self.height) {
            Some((x, y)) => {
                proof {
                    lemma_index_in_grid(
                        x as int,
                        y as int,
                        self.width as int,
                        self.height as int,
                    );
                    assert(y * self.width + x < self.values.len());
                }
                self.values[y * self.width + x]
            },
            None => F32 { bits: 0 },
        }
    }

    /// Nearest-cell likelihood at world point `p`; 0 outside the raster.
    pub fn lookup<N: Numerics>(&self, p: Point2) -> (r: F32)
        requires
            self@.wf(),
        ensures
            deterministic::<N>() ==> r == self@.nearest::<N>(p),
    {
        match point_to_cell::<N>(p, self.origin, self.resolution_m) {
            Some((cx, cy)) => self.sample(cx, cy),
            None => F32 { bits: 0 },
        }
    }

    /// Bilinearly interpolated likelihood at world point `p`; 0 outside. Used in
    /// the fine refinement stage so scores vary smoothly below the raster
    /// resolution.
    pub fn lookup_bilinear<N: Numerics>(&self, p: Point2) -> (r: F32)
        requires
            self@.wf(),
        ensures
            deterministic::<N>() ==> r == self@.smooth::<N>(p),
    {
        let half = F64 { bits: HALF };
        let ux = over::<N>(minus::<N>(p.x, self.origin.x), self.resolution_m);
        let uy = over::<N>(minus::<N>(p.y, self.origin.y), self.resolution_m);
        match floor_cell(ux, uy) {
            Some((cx, cy)) => {
                if in_bounds(cx, cy, self.width, self.height).is_none() {
                    return F32 { bits: 0 };
                }
            },
            None => return F32 { bits: 0 },
        }
        let gx = minus::<N>(ux, half);
        let gy = minus::<N>(uy, half);
        match floor_cell(gx, gy) {
            Some((x0, y0)) => {
                let fx = narrow::<N>(minus::<N>(gx, floor::<N>(gx)));
                let fy = narrow::<N>(minus::<N>(gy, floor::<N>(gy)));
                let top = mix::<N>(self.sample(x0, y0), self.sample(x0 + 1, y0), fx);
                let bottom = mix::<N>(self.sample(x0, y0 + 1), self.sample(x0 + 1, y0 + 1), fx);
                mix::<N>(top, bottom, fy)
            },
            None => F32 { bits: 0 },
        }
    }

    /// Coarse field: block-max pooling by `factor`. Every coarse cell holds the
    /// maximum of its block, so coarse scores are optimistic — candidates are
    /// never pruned away by pooling, only over-approximated.
    pub fn max_pool<N: Numerics>(&self, factor: usize) -> (r: LikelihoodField)
        requires
            self@.wf(),
        ensures
            r@.wf(),
            r.origin == self.origin,
            r.width == blocks(self.width as int, pool_factor(factor) as int),
            r.height == blocks(self.height as int, pool_factor(factor) as int),
            forall|j: int|
                0 <= j < r.values@.len() ==> #[trigger] r.values@[j] == block_max(
                    self.values@,
                    self.width as int,
                    pool_factor(factor) as int,
                    j,
                    self.values@.len(),
                ),
            deterministic::<N>() ==> r@ == pooled::<N>(self@, factor),
    {
        let f: usize = if factor == 0 {
            1
        } else {
            factor
        };
        proof {
            lemma_blocks(self.width as int, f as int);
            lemma_blocks(self.height as int, f as int);
        }
        let width: usize = (self.width - 1) / f + 1;
        let height: usize = (self.height - 1) / f + 1;
        proof {
            assert(width * height <= self.width * self.height) by (nonlinear_arith)
                requires
                    0 <= width <= self.width,
                    0 <= height <= self.height,
            ;
        }
        let mut values: Vec<F32> = vec![F32 { bits: 0 }; width * height];
        for i in 0..self.values.len()
            invariant
                self@.wf(),
                f == pool_factor(factor),
                width == blocks(self.width as int, f as int),
                height == blocks(self.height as int, f as int),
                values@.len() == width * height,
                forall|j: int|
                    0 <= j < values@.len() ==> #[trigger] values@[j] == block_max(
                        self.values@,
                        self.width as int,
                        f as int,
                        j,
                        i as nat,
                    ),
        {
            proof {
                lemma_block_in_pool(i as int, self.width as int, self.height as int, f as int);
            }
            let (x, y) = (i % self.width, i / self.width);
            proof {
                assert((y / f) * width + x / f < values.len());
            }
            let j: usize = (y / f) * width + x / f;
            let source = self.values[i];
            if values[j].lt(source) {
                values.set(j, source);
            }
        }
        let resolution_m = times::<N>(self.resolution_m, as_f64::<N>(f as u64));
        let r = LikelihoodField { resolution_m, origin: self.origin, width, height, values };
        proof {
            if deterministic::<N>() {
                assert(r@.values =~= pooled::<N>(self@, factor).values);
            }
        }
        r
    }
}

/// Pooling is optimistic: the value of a block is at least that of every cell in
/// it (a NaN aside), and it is that of some cell in it, or 0.
pub proof fn law_pooling_is_optimistic(
    values: Seq<F32>,
    width: int,
    factor: int,
    j: int,
    n: nat,
)
    requires
        n <= values.len(),
    ensures
        (F32 { bits: 0 }).le(block_max(values, width, factor, j, n)),
        forall|i: int|
            0 <= i < n && block_of(i, width, factor) == j && !(#[trigger] values[i]).is_nan()
                ==> values[i].le(block_max(values, width, factor, j, n)),
        block_max(values, width, factor, j, n) == (F32 { bits: 0 }) || exists|i: int|
            0 <= i < n && block_of(i, width, factor) == j && #[trigger] values[i] == block_max(
                values,
                width,
                factor,
                j,
                n,
            ),
    decreases n,
{
    if n > 0 {
        law_pooling_is_optimistic(values, width, factor, j, (n - 1) as nat);
        let before = block_max(values, width, factor, j, (n - 1) as nat);
        let now = block_max(values, width, factor, j, n);
        if now == before && before != (F32 { bits: 0 }) {
            let i = choose|i: int|
                0 <= i < n - 1 && block_of(i, width, factor) == j && #[trigger] values[i] == before;
            assert(values[i] == now);
        }
    }
}

/// A coarse cell never underestimates a cell that it covers.
pub proof fn law_coarse_cell_bounds_its_cells<N: Numerics>(
    field: FieldModel,
    factor: usize,
    cell: (i64, i64),
)
    requires
        field.wf(),
        factor >= 1,
        inside(cell, field.width, field.height),
        !field.sample(cell).is_nan(),
    ensures
        field.sample(cell).le(
            pooled::<N>(field, factor).sample(
                ((cell.0 as int / factor as int) as i64, (cell.1 as int / factor as int) as i64),
            ),
        ),
{
    let (w, h, f) = (field.width as int, field.height as int, factor as int);
    let (x, y) = (cell.0 as int, cell.1 as int);
    let i = index_of(cell, field.width);
    lemma_index_in_grid(x, y, w, h);
    lemma_block_in_pool(i, w, h, f);
    lemma_blocks(w, f);
    lemma_blocks(h, f);
    law_pooling_is_optimistic(field.values, w, f, block_of(i, w, f), field.values.len());
    vstd::arithmetic::div_mod::lemma_div_nonincreasing(x, f);
    vstd::arithmetic::div_mod::lemma_div_nonincreasing(y, f);
}

/// The extent covers every finite point.
pub proof fn law_extent_covers_finite_points(points: Seq<Point2>, n: nat, k: int)
    requires
        0 <= k < n <= points.len(),
        points[k].is_finite(),
    ensures
        extent(points, n).0.x.le(points[k].x),
        extent(points, n).0.y.le(points[k].y),
        points[k].x.le(extent(points, n).1.x),
        points[k].y.le(extent(points, n).1.y),
        extent(points, n).0.is_finite(),
    decreases n,
{
    if k < n - 1 {
        law_extent_covers_finite_points(points, (n - 1) as nat, k);
    } else {
        lemma_extent_is_not_nan(points, (n - 1) as nat);
    }
}

/// The corners of an extent are no NaN.
proof fn lemma_extent_is_not_nan(points: Seq<Point2>, n: nat)
    requires
        n <= points.len(),
    ensures
        !extent(points, n).0.x.is_nan() && !extent(points, n).0.y.is_nan(),
        !extent(points, n).1.x.is_nan() && !extent(points, n).1.y.is_nan(),
        extent(points, n).0.x.is_finite() || extent(points, n).0.x == (F64 { bits: INFINITE64 }),
        extent(points, n).0.y.is_finite() || extent(points, n).0.y == (F64 { bits: INFINITE64 }),
    decreases n,
{
    if n > 0 {
        lemma_extent_is_not_nan(points, (n - 1) as nat);
    }
}

/// `a` does not come behind `b`, the negative zero before the positive one.
spec fn ranks_before(a: F64, b: F64) -> bool {
    a.rank() < b.rank() || (a.rank() == b.rank() && a.bits >= b.bits)
}

/// Some finite one of the first `n` points has this coordinate.
spec fn occurs(points: Seq<Point2>, n: nat, pick: spec_fn(Point2) -> F64, v: F64) -> bool {
    exists|k: int|
        0 <= k < n && (#[trigger] points[k]).is_finite() && pick(points[k]) == v
}

/// The x coordinate of a point.
spec fn of_x() -> spec_fn(Point2) -> F64 {
    |p: Point2| p.x
}

/// The y coordinate of a point.
spec fn of_y() -> spec_fn(Point2) -> F64 {
    |p: Point2| p.y
}

/// A coordinate that occurs among fewer points occurs among more.
proof fn lemma_occurs_grows(
    points: Seq<Point2>,
    m: nat,
    n: nat,
    pick: spec_fn(Point2) -> F64,
    v: F64,
)
    requires
        m <= n <= points.len(),
        occurs(points, m, pick, v),
    ensures
        occurs(points, n, pick, v),
{
    let k = choose|k: int|
        0 <= k < m && (#[trigger] points[k]).is_finite() && pick(points[k]) == v;
    assert(points[k].is_finite());
}

/// The corners of an extent are the extreme coordinates of the finite points, if there
/// is one.
proof fn lemma_extent_is_tight(points: Seq<Point2>, n: nat)
    requires
        n <= points.len(),
    ensures
        ({
            let far = F64 { bits: INFINITE64 };
            let (low, high) = extent(points, n);
            &&& forall|k: int|
                0 <= k < n && (#[trigger] points[k]).is_finite() ==> ranks_before(low.x, points[k].x)
                    && ranks_before(low.y, points[k].y) && ranks_before(points[k].x, high.x)
                    && ranks_before(points[k].y, high.y)
            &&& low.x == far || occurs(points, n, of_x(), low.x)
            &&& low.y == far || occurs(points, n, of_y(), low.y)
            &&& high.x == far.negated() || occurs(points, n, of_x(), high.x)
            &&& high.y == far.negated() || occurs(points, n, of_y(), high.y)
        }),
    decreases n,
{
    if n > 0 {
        let m = (n - 1) as nat;
        lemma_extent_is_tight(points, m);
        lemma_extent_is_not_nan(points, m);
        let far = F64 { bits: INFINITE64 };
        let (low, high) = extent(points, m);
        let p = points[m as int];
        if occurs(points, m, of_x(), low.x) {
            lemma_occurs_grows(points, m, n, of_x(), low.x);
        }
        if occurs(points, m, of_y(), low.y) {
            lemma_occurs_grows(points, m, n, of_y(), low.y);
        }
        if occurs(points, m, of_x(), high.x) {
            lemma_occurs_grows(points, m, n, of_x(), high.x);
        }
        if occurs(points, m, of_y(), high.y) {
            lemma_occurs_grows(points, m, n, of_y(), high.y);
        }
        if p.is_finite() {
            assert(of_x()(p) == p.x && of_y()(p) == p.y);
            assert(occurs(points, n, of_x(), p.x));
            assert(occurs(points, n, of_y(), p.y));
        }
    }
}

/// Both sequences hold the same finite points.
pub open spec fn same_finite_points(a: Seq<Point2>, b: Seq<Point2>) -> bool {
    forall|p: Point2| p.is_finite() ==> (#[trigger] a.contains(p) <==> b.contains(p))
}

/// Of two sequences with the same finite points, what occurs in one occurs in the
/// other.
proof fn lemma_occurs_in_both(
    a: Seq<Point2>,
    b: Seq<Point2>,
    pick: spec_fn(Point2) -> F64,
    v: F64,
) -> (k: int)
    requires
        same_finite_points(a, b),
        occurs(a, a.len(), pick, v),
    ensures
        0 <= k < b.len(),
        b[k].is_finite(),
        pick(b[k]) == v,
{
    let j = choose|j: int|
        0 <= j < a.len() && (#[trigger] a[j]).is_finite() && pick(a[j]) == v;
    assert(a.contains(a[j]));
    assert(b.contains(a[j]));
    choose|k: int| 0 <= k < b.len() && b[k] == a[j]
}

/// Sequences with the same finite points have the same extent.
proof fn lemma_extent_of_same_points(a: Seq<Point2>, b: Seq<Point2>)
    requires
        same_finite_points(a, b),
        same_finite_points(b, a),
    ensures
        extent(a, a.len()) == extent(b, b.len()),
{
    lemma_extent_is_tight(a, a.len());
    lemma_extent_is_tight(b, b.len());
    let (low_a, high_a) = extent(a, a.len());
    let (low_b, high_b) = extent(b, b.len());
    lemma_equal_extremes(a, b, of_x(), low_a.x, low_b.x, high_a.x, high_b.x);
    lemma_equal_extremes(a, b, of_y(), low_a.y, low_b.y, high_a.y, high_b.y);
}

/// The extremes of one coordinate are determined by the finite points.
proof fn lemma_equal_extremes(
    a: Seq<Point2>,
    b: Seq<Point2>,
    pick: spec_fn(Point2) -> F64,
    low_a: F64,
    low_b: F64,
    high_a: F64,
    high_b: F64,
)
    requires
        same_finite_points(a, b),
        same_finite_points(b, a),
        pick == of_x() || pick == of_y(),
        forall|k: int|
            0 <= k < a.len() && (#[trigger] a[k]).is_finite() ==> ranks_before(low_a, pick(a[k]))
                && ranks_before(pick(a[k]), high_a),
        forall|k: int|
            0 <= k < b.len() && (#[trigger] b[k]).is_finite() ==> ranks_before(low_b, pick(b[k]))
                && ranks_before(pick(b[k]), high_b),
        low_a == (F64 { bits: INFINITE64 }) || occurs(a, a.len(), pick, low_a),
        low_b == (F64 { bits: INFINITE64 }) || occurs(b, b.len(), pick, low_b),
        high_a == (F64 { bits: INFINITE64 }).negated() || occurs(a, a.len(), pick, high_a),
        high_b == (F64 { bits: INFINITE64 }).negated() || occurs(b, b.len(), pick, high_b),
    ensures
        low_a == low_b,
        high_a == high_b,
{
    if occurs(a, a.len(), pick, low_a) {
        let k = lemma_occurs_in_both(a, b, pick, low_a);
        assert(ranks_before(low_b, pick(b[k])));
    }
    if occurs(b, b.len(), pick, low_b) {
        let k = lemma_occurs_in_both(b, a, pick, low_b);
        assert(ranks_before(low_a, pick(a[k])));
    }
    if occurs(a, a.len(), pick, high_a) {
        let k = lemma_occurs_in_both(a, b, pick, high_a);
        assert(ranks_before(pick(b[k]), high_b));
    }
    if occurs(b, b.len(), pick, high_b) {
        let k = lemma_occurs_in_both(b, a, pick, high_b);
        assert(ranks_before(pick(a[k]), high_a));
    }
}

/// A cell occupied by one of two sequences with the same finite points is occupied by
/// the other.
proof fn lemma_occupied_by_both<N: Numerics>(
    a: Seq<Point2>,
    b: Seq<Point2>,
    origin: Point2,
    resolution: F64,
    width: usize,
    height: usize,
    i: int,
)
    requires
        same_finite_points(a, b),
        occupied::<N>(a, origin, resolution, width, height, a.len(), i),
    ensures
        occupied::<N>(b, origin, resolution, width, height, b.len(), i),
{
    let j = choose|j: int|
        0 <= j < a.len() && a[j].is_finite() && (#[trigger] cell_of::<N>(
            a[j],
            origin,
            resolution,
        ) matches Some(cell) && inside(cell, width, height) && index_of(cell, width) == i);
    assert(a.contains(a[j]));
    assert(b.contains(a[j]));
    let k = choose|k: int| 0 <= k < b.len() && b[k] == a[j];
    assert(cell_of::<N>(b[k], origin, resolution) == cell_of::<N>(a[j], origin, resolution));
}

/// A field depends on which finite points there are, and on nothing else: reordering or
/// repeating points, or adding ones that are not finite, gives the same field.
pub proof fn law_field_depends_on_the_set_of_finite_points<N: Numerics>(
    a: Seq<Point2>,
    b: Seq<Point2>,
    resolution_m: F64,
    sigma_m: F64,
    margin_m: F64,
    max_cells: usize,
)
    requires
        same_finite_points(a, b),
    ensures
        field_of::<N>(a, resolution_m, sigma_m, margin_m, max_cells) == field_of::<N>(
            b,
            resolution_m,
            sigma_m,
            margin_m,
            max_cells,
        ),
{
    assert(same_finite_points(b, a)) by {
        assert forall|p: Point2| p.is_finite() implies (#[trigger] b.contains(p) <==> a.contains(p)) by {
            assert(a.contains(p) <==> b.contains(p));
        }
    }
    lemma_extent_of_same_points(a, b);
    let (low, high) = extent(a, a.len());
    let origin = raster_origin::<N>(low, margin_m);
    match (
        raster_side::<N>(origin.x, high.x, margin_m, resolution_m),
        raster_side::<N>(origin.y, high.y, margin_m, resolution_m),
    ) {
        (Some(width), Some(height)) => {
            let sa = seeded::<N>(a, origin, resolution_m, width, height);
            let sb = seeded::<N>(b, origin, resolution_m, width, height);
            assert forall|i: int| 0 <= i < sa.len() implies sa[i] == sb[i] by {
                if occupied::<N>(a, origin, resolution_m, width, height, a.len(), i) {
                    lemma_occupied_by_both::<N>(a, b, origin, resolution_m, width, height, i);
                }
                if occupied::<N>(b, origin, resolution_m, width, height, b.len(), i) {
                    lemma_occupied_by_both::<N>(b, a, origin, resolution_m, width, height, i);
                }
            }
            assert(sa =~= sb);
        },
        _ => {},
    }
}

/// Without a finite point there is no field, and with one the only obstacle is its
/// size.
pub proof fn law_field_needs_a_finite_point<N: Numerics>(
    points: Seq<Point2>,
    resolution_m: F64,
    sigma_m: F64,
    margin_m: F64,
    max_cells: usize,
)
    ensures
        field_of::<N>(points, resolution_m, sigma_m, margin_m, max_cells) == Err::<
            FieldModel,
            SlamError,
        >(SlamError::MatchFailed { reason: Reason::NoFiniteReference }) <==> forall|k: int|
            0 <= k < points.len() ==> !(#[trigger] points[k]).is_finite(),
{
    lemma_extent_is_tight(points, points.len());
    let (low, high) = extent(points, points.len());
    if exists|k: int| 0 <= k < points.len() && (#[trigger] points[k]).is_finite() {
        let k = choose|k: int| 0 <= k < points.len() && (#[trigger] points[k]).is_finite();
        law_extent_covers_finite_points(points, points.len(), k);
    } else {
        assert(!low.is_finite());
    }
}

/// One axis of a raster is laid out without rounding: `low` and `high` are the least and
/// greatest coordinates, `v` is one between them, and the number of cells can be counted.
pub open spec fn lays_out_exactly<N: Numerics>(
    low: F64,
    high: F64,
    v: F64,
    margin_m: F64,
    resolution_m: F64,
) -> bool {
    let origin = difference::<N>(low, margin_m);
    let span = difference::<N>(sum::<N>(high, margin_m), origin);
    let offset = difference::<N>(v, origin);
    let widths = quotient::<N>(span, resolution_m);
    let at = quotient::<N>(offset, resolution_m);
    let count = ceil_of::<N>(widths);
    &&& margin_m.units() > 0
    &&& resolution_m.units() > 0
    &&& origin.units() == low.units() - margin_m.units()
    &&& span.units() == high.units() + margin_m.units() - origin.units()
    &&& offset.units() == v.units() - origin.units()
    &&& widths.units() * resolution_m.units() == unit() * span.units()
    &&& at.is_finite()
    &&& at.units() * resolution_m.units() == unit() * offset.units()
    &&& count.is_finite()
    &&& widths.units() <= count.units() < pow2(1127)
    &&& count.units() % unit() == 0
}

/// A coordinate between the extremes of an axis falls into one of its cells.
proof fn lemma_axis_holds<N: Numerics>(
    low: F64,
    high: F64,
    v: F64,
    margin_m: F64,
    resolution_m: F64,
    side: usize,
)
    requires
        low.units() <= v.units() <= high.units(),
        lays_out_exactly::<N>(low, high, v, margin_m, resolution_m),
        raster_side::<N>(difference::<N>(low, margin_m), high, margin_m, resolution_m) == Some(
            side,
        ),
    ensures
        floored(
            quotient::<N>(
                difference::<N>(v, difference::<N>(low, margin_m)),
                resolution_m,
            ),
        ) matches Some(k) && 0 <= k < side,
{
    let origin = difference::<N>(low, margin_m);
    let span = difference::<N>(sum::<N>(high, margin_m), origin).units();
    let offset = difference::<N>(v, origin).units();
    let widths = quotient::<N>(
        difference::<N>(sum::<N>(high, margin_m), origin),
        resolution_m,
    ).units();
    let at = quotient::<N>(difference::<N>(v, origin), resolution_m).units();
    let count = ceil_of::<N>(
        quotient::<N>(difference::<N>(sum::<N>(high, margin_m), origin), resolution_m),
    ).units();
    let (u, res) = (unit(), resolution_m.units());
    lemma_units_of_constants();
    lemma_pow2_adds(1074, 53);
    lemma2_to64_rest();
    assert(0 < u * offset < u * span) by (nonlinear_arith)
        requires
            u > 0,
            0 < offset < span,
    ;
    assert(0 < at < widths) by (nonlinear_arith)
        requires
            res > 0,
            0 < at * res,
            at * res < widths * res,
    ;
    let n = count / u;
    lemma_fundamental_div_mod(count, u);
    lemma_fundamental_div_mod(at, u);
    lemma_mod_bound(at, u);
    assert(0 <= at / u < n) by (nonlinear_arith)
        requires
            u > 0,
            0 < at < count,
            count == u * n,
            at == u * (at / u) + at % u,
            0 <= at % u < u,
    ;
    assert(n < 0x20_0000_0000_0000) by (nonlinear_arith)
        requires
            u > 0,
            count == u * n,
            count < u * 0x20_0000_0000_0000,
    ;
}

/// Where nothing rounds in laying out the raster, every finite reference point falls
/// into one of its cells.
pub proof fn law_reference_points_lie_in_the_raster<N: Numerics>(
    points: Seq<Point2>,
    resolution_m: F64,
    sigma_m: F64,
    margin_m: F64,
    max_cells: usize,
    field: FieldModel,
    k: int,
)
    requires
        field_of::<N>(points, resolution_m, sigma_m, margin_m, max_cells) == Ok::<
            FieldModel,
            SlamError,
        >(field),
        0 <= k < points.len(),
        points[k].is_finite(),
        extent(points, points.len()).1.is_finite(),
        lays_out_exactly::<N>(
            extent(points, points.len()).0.x,
            extent(points, points.len()).1.x,
            points[k].x,
            margin_m,
            resolution_m,
        ),
        lays_out_exactly::<N>(
            extent(points, points.len()).0.y,
            extent(points, points.len()).1.y,
            points[k].y,
            margin_m,
            resolution_m,
        ),
    ensures
        cell_of::<N>(points[k], field.origin, field.resolution_m) matches Some(cell) && inside(
            cell,
            field.width,
            field.height,
        ),
{
    let (low, high) = extent(points, points.len());
    let p = points[k];
    law_extent_covers_finite_points(points, points.len(), k);
    law_order_is_value_order(low.x, p.x);
    law_order_is_value_order(p.x, high.x);
    law_order_is_value_order(low.y, p.y);
    law_order_is_value_order(p.y, high.y);
    lemma_axis_holds::<N>(low.x, high.x, p.x, margin_m, resolution_m, field.width);
    lemma_axis_holds::<N>(low.y, high.y, p.y, margin_m, resolution_m, field.height);
}

} // verus!
