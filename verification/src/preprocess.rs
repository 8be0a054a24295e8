//! Scan preprocessing: range gating, outlier rejection, voxel subsampling.
//!
//! The pipeline (in this fixed order) is:
//!
//! 1. **Range gate** — drop returns closer than [`PreprocessConfig::min_range_m`]
//!    or farther than [`PreprocessConfig::max_range_m`]. Points
//!    that are not finite are dropped too.
//! 2. **Outlier rejection** — drop points with fewer than
//!    [`PreprocessConfig::outlier_min_neighbors`] neighbours within
//!    [`PreprocessConfig::outlier_radius_m`].
//! 3. **Voxel subsample** — collapse all points in each square cell of side
//!    [`PreprocessConfig::voxel_size_m`] to their centroid, in the order in
//!    which the cells are first seen.

use std::collections::HashMap;
use vstd::prelude::*;

use crate::accuracy::{
    distance_error, indices, lemma_divided_bound, lemma_indices_finite, lemma_indices_step,
    lemma_multiple_order, lemma_product_admitted, lemma_squared_distance, lemma_sum_of_squares,
    near, size, Accuracy,
};
use crate::convert::{floored, lemma_floor_is_exact};
use crate::error::{Reason, SlamError};
use crate::float::{law_order_is_value_order, lemma_units_of_constants, unit, F64};
use crate::grid::cellmath::{cell_at, exact_cell, floor_cell, ONE};
use crate::numerics::{
    deterministic, difference, float_of, from_u32, minus, over, plus, product, quotient, sum, times,
    Numerics,
};
use crate::pose::Point2;
use crate::scan::ScanCloud;

verus! {

/// Tunables for scan preprocessing. All distances in metres.
#[derive(Debug, Clone, Copy, PartialEq, Eq, Structural)]
pub struct PreprocessConfig {
    /// Minimum accepted range, metres (inclusive). Default `0.15`.
    pub min_range_m: F64,
    /// Maximum accepted range, metres (inclusive). Default `12.0`.
    pub max_range_m: F64,
    /// Voxel side length for subsampling, metres. Default `0.05`.
    pub voxel_size_m: F64,
    /// Neighbourhood radius for outlier rejection, metres. Default `0.10`.
    pub outlier_radius_m: F64,
    /// Minimum number of neighbours, excluding the point itself, for a point to
    /// be kept; `0` disables outlier rejection. Default `2`.
    pub outlier_min_neighbors: usize,
    /// Maximum accepted input scan size, points. Default `8192`.
    pub max_input_points: usize,
}

impl Default for PreprocessConfig {
    fn default() -> (r: PreprocessConfig)
        ensures
            r == (PreprocessConfig {
                min_range_m: F64 { bits: 0x3fc3_3333_3333_3333 },
                max_range_m: F64 { bits: 0x4028_0000_0000_0000 },
                voxel_size_m: F64 { bits: 0x3fa9_9999_9999_999a },
                outlier_radius_m: F64 { bits: 0x3fb9_9999_9999_999a },
                outlier_min_neighbors: 2,
                max_input_points: 8192,
            }),
    {
        PreprocessConfig {
            min_range_m: F64 { bits: 0x3fc3_3333_3333_3333 },
            max_range_m: F64 { bits: 0x4028_0000_0000_0000 },
            voxel_size_m: F64 { bits: 0x3fa9_9999_9999_999a },
            outlier_radius_m: F64 { bits: 0x3fb9_9999_9999_999a },
            outlier_min_neighbors: 2,
            max_input_points: 8192,
        }
    }
}

impl PreprocessConfig {
    /// The first rule that a field breaks: finite distances, a non-negative
    /// minimum range below the maximum range, positive sizes.
    pub open spec fn fault(self) -> Option<(&'static str, Reason)> {
        let zero = F64 { bits: 0 };
        if !self.min_range_m.is_finite() {
            Some(("min_range_m", Reason::NotFinite(self.min_range_m)))
        } else if !self.max_range_m.is_finite() {
            Some(("max_range_m", Reason::NotFinite(self.max_range_m)))
        } else if !self.voxel_size_m.is_finite() {
            Some(("voxel_size_m", Reason::NotFinite(self.voxel_size_m)))
        } else if !self.outlier_radius_m.is_finite() {
            Some(("outlier_radius_m", Reason::NotFinite(self.outlier_radius_m)))
        } else if self.min_range_m.lt(zero) {
            Some(("min_range_m", Reason::Negative(self.min_range_m)))
        } else if self.max_range_m.le(self.min_range_m) {
            Some(
                (
                    "max_range_m",
                    Reason::RangeOrder { min: self.min_range_m, max: self.max_range_m },
                ),
            )
        } else if self.voxel_size_m.le(zero) {
            Some(("voxel_size_m", Reason::NotPositive(self.voxel_size_m)))
        } else if self.outlier_radius_m.le(zero) {
            Some(("outlier_radius_m", Reason::NotPositive(self.outlier_radius_m)))
        } else if self.max_input_points == 0 {
            Some(("max_input_points", Reason::Zero))
        } else {
            None
        }
    }

    /// Validate the configuration.
    ///
    /// [`SlamError::InvalidConfig`] names the first field that breaks a rule.
    pub fn validate(&self) -> (r: Result<(), SlamError>)
        ensures
            r == (match self.fault() {
                Some((field, reason)) => Err::<(), SlamError>(
                    SlamError::InvalidConfig { field, reason },
                ),
                None => Ok(()),
            }),
    {
        let zero = F64 { bits: 0 };
        if !self.min_range_m.is_finite() {
            return Err(
                SlamError::InvalidConfig {
                    field: "min_range_m",
                    reason: Reason::NotFinite(self.min_range_m),
                },
            );
        }
        if !self.max_range_m.is_finite() {
            return Err(
                SlamError::InvalidConfig {
                    field: "max_range_m",
                    reason: Reason::NotFinite(self.max_range_m),
                },
            );
        }
        if !self.voxel_size_m.is_finite() {
            return Err(
                SlamError::InvalidConfig {
                    field: "voxel_size_m",
                    reason: Reason::NotFinite(self.voxel_size_m),
                },
            );
        }
        if !self.outlier_radius_m.is_finite() {
            return Err(
                SlamError::InvalidConfig {
                    field: "outlier_radius_m",
                    reason: Reason::NotFinite(self.outlier_radius_m),
                },
            );
        }
        if self.min_range_m.lt(zero) {
            return Err(
                SlamError::InvalidConfig {
                    field: "min_range_m",
                    reason: Reason::Negative(self.min_range_m),
                },
            );
        }
        if self.max_range_m.le(self.min_range_m) {
            return Err(
                SlamError::InvalidConfig {
                    field: "max_range_m",
                    reason: Reason::RangeOrder { min: self.min_range_m, max: self.max_range_m },
                },
            );
        }
        if self.voxel_size_m.le(zero) {
            return Err(
                SlamError::InvalidConfig {
                    field: "voxel_size_m",
                    reason: Reason::NotPositive(self.voxel_size_m),
                },
            );
        }
        if self.outlier_radius_m.le(zero) {
            return Err(
                SlamError::InvalidConfig {
                    field: "outlier_radius_m",
                    reason: Reason::NotPositive(self.outlier_radius_m),
                },
            );
        }
        if self.max_input_points == 0 {
            return Err(
                SlamError::InvalidConfig { field: "max_input_points", reason: Reason::Zero },
            );
        }
        Ok(())
    }
}

// ---- Stage 1: range gate ----

/// `p.x² + p.y²`.
pub open spec fn range2<N: Numerics>(p: Point2) -> F64 {
    sum::<N>(product::<N>(p.x, p.x), product::<N>(p.y, p.y))
}

/// `true` if a squared range lies between two squared bounds, inclusively.
#[verifier::allow_in_spec]
pub fn in_range(r2: F64, min2: F64, max2: F64) -> bool
    returns
        min2.le(r2) && r2.le(max2),
{
    min2.le(r2) && r2.le(max2)
}

/// The finite points within the configured ranges, in order.
pub open spec fn gated<N: Numerics>(points: Seq<Point2>, config: PreprocessConfig) -> Seq<Point2> {
    let min2 = product::<N>(config.min_range_m, config.min_range_m);
    let max2 = product::<N>(config.max_range_m, config.max_range_m);
    points.filter(|p: Point2| p.is_finite() && in_range(range2::<N>(p), min2, max2))
}

// ---- Stage 2: outlier rejection ----

/// Squared distance of two points.
pub open spec fn distance2<N: Numerics>(p: Point2, q: Point2) -> F64 {
    let dx = difference::<N>(p.x, q.x);
    let dy = difference::<N>(p.y, q.y);
    sum::<N>(product::<N>(dx, dx), product::<N>(dy, dy))
}

/// How many of the first `n` points, point `i` itself excluded, lie within the
/// squared radius `r2` of point `i`.
pub open spec fn neighbours<N: Numerics>(points: Seq<Point2>, i: int, r2: F64, n: nat) -> nat
    decreases n,
{
    if n == 0 {
        0
    } else {
        let j = n - 1;
        neighbours::<N>(points, i, r2, j as nat) + (if j != i && distance2::<N>(
            points[i],
            points[j],
        ).le(r2) {
            1nat
        } else {
            0
        })
    }
}

/// Those of the first `n` points that have at least `least` neighbours.
pub open spec fn crowded<N: Numerics>(points: Seq<Point2>, least: nat, r2: F64, n: nat) -> Seq<
    Point2,
>
    decreases n,
{
    if n == 0 {
        Seq::empty()
    } else {
        let i = n - 1;
        let before = crowded::<N>(points, least, r2, i as nat);
        if neighbours::<N>(points, i, r2, points.len()) >= least {
            before.push(points[i])
        } else {
            before
        }
    }
}

/// The points that survive outlier rejection, in order; all of them if no
/// neighbour is asked for.
pub open spec fn kept<N: Numerics>(points: Seq<Point2>, config: PreprocessConfig) -> Seq<Point2> {
    if config.outlier_min_neighbors == 0 {
        points
    } else {
        let r2 = product::<N>(config.outlier_radius_m, config.outlier_radius_m);
        crowded::<N>(points, config.outlier_min_neighbors as nat, r2, points.len())
    }
}

// ---- Stage 3: voxel subsample ----

/// The points collected in one voxel: their coordinate sums and their number.
#[derive(Debug, Clone, Copy)]
pub struct Voxel {
    /// Cell of the voxel.
    pub cell: (i64, i64),
    /// Sum of the x coordinates.
    pub sum_x: F64,
    /// Sum of the y coordinates.
    pub sum_y: F64,
    /// Number of points.
    pub count: u32,
}

/// Some voxel lies in `cell`.
pub open spec fn has_cell(voxels: Seq<Voxel>, cell: (i64, i64)) -> bool {
    exists|k: int| 0 <= k < voxels.len() && #[trigger] voxels[k].cell == cell
}

/// Where the voxel of `cell` stands.
pub open spec fn slot_of(voxels: Seq<Voxel>, cell: (i64, i64)) -> int {
    choose|k: int| 0 <= k < voxels.len() && #[trigger] voxels[k].cell == cell
}

/// `voxels` with one more point: added to the voxel of its cell, or a new voxel
/// at the end if its cell has none yet.
pub open spec fn collected<N: Numerics>(
    voxels: Seq<Voxel>,
    cell: (i64, i64),
    p: Point2,
) -> Seq<Voxel> {
    if has_cell(voxels, cell) {
        let k = slot_of(voxels, cell);
        let v = voxels[k];
        voxels.update(
            k,
            Voxel {
                cell,
                sum_x: sum::<N>(v.sum_x, p.x),
                sum_y: sum::<N>(v.sum_y, p.y),
                count: (v.count + 1) as u32,
            },
        )
    } else {
        voxels.push(Voxel { cell, sum_x: p.x, sum_y: p.y, count: 1 })
    }
}

/// The voxel cell of a point, if it is exact.
pub open spec fn voxel_cell<N: Numerics>(p: Point2, inv_voxel: F64) -> Option<(i64, i64)> {
    cell_at(product::<N>(p.x, inv_voxel), product::<N>(p.y, inv_voxel))
}

/// The voxels of the first `n` points, in the order in which their cells are
/// first seen.
pub open spec fn voxels<N: Numerics>(points: Seq<Point2>, inv_voxel: F64, n: nat) -> Seq<Voxel>
    decreases n,
{
    if n == 0 {
        Seq::empty()
    } else {
        let before = voxels::<N>(points, inv_voxel, (n - 1) as nat);
        match voxel_cell::<N>(points[n - 1], inv_voxel) {
            Some(cell) => collected::<N>(before, cell, points[n - 1]),
            None => before,
        }
    }
}

/// The centroid of the points of a voxel.
pub open spec fn centroid<N: Numerics>(v: Voxel) -> Point2 {
    Point2 {
        x: quotient::<N>(v.sum_x, float_of::<N>(v.count)),
        y: quotient::<N>(v.sum_y, float_of::<N>(v.count)),
    }
}

/// The centroid of every voxel, in the order in which the cells are first seen.
pub open spec fn subsampled<N: Numerics>(points: Seq<Point2>, config: PreprocessConfig) -> Seq<
    Point2,
> {
    let inv_voxel = quotient::<N>(F64 { bits: ONE }, config.voxel_size_m);
    voxels::<N>(points, inv_voxel, points.len()).map_values(|v: Voxel| centroid::<N>(v))
}

/// All three stages.
pub open spec fn preprocessed<N: Numerics>(points: Seq<Point2>, config: PreprocessConfig) -> Seq<
    Point2,
> {
    subsampled::<N>(kept::<N>(gated::<N>(points, config), config), config)
}

/// The number of a cell: different for different cells.
pub open spec fn cell_number(cell: (i64, i64)) -> int {
    (cell.0 + 0x20_0000_0000_0000) * 0x40_0000_0000_0000 + (cell.1 + 0x20_0000_0000_0000)
}

/// Compute [`cell_number`].
fn number_cell(cell: (i64, i64)) -> (r: u128)
    requires
        exact_cell(cell),
    ensures
        r == cell_number(cell),
{
    let row = (cell.0 + 0x20_0000_0000_0000) as u128;
    let column = (cell.1 + 0x20_0000_0000_0000) as u128;
    row * 0x40_0000_0000_0000 + column
}

/// Two cells with one number are one cell.
proof fn lemma_cell_number_is_injective(a: (i64, i64), b: (i64, i64))
    requires
        exact_cell(a),
        exact_cell(b),
        cell_number(a) == cell_number(b),
    ensures
        a == b,
{
}

/// Scan preprocessor with reusable scratch buffers.
///
/// Create once, call [`Preprocessor::process`] per scan. The buffers are cleared
/// and reused between calls: what one scan left in them never shows in the
/// result of the next.
#[derive(Debug)]
pub struct Preprocessor {
    config: PreprocessConfig,
    /// Points that survived the range gate.
    gated: Vec<Point2>,
    /// Points that survived outlier rejection.
    kept: Vec<Point2>,
    /// Number of a cell to the slot of its voxel in `accum`.
    cell_index: HashMap<u128, usize>,
    /// Voxels in first-seen order.
    accum: Vec<Voxel>,
}

impl Preprocessor {
    /// The active configuration.
    pub closed spec fn spec_config(&self) -> PreprocessConfig {
        self.config
    }

    /// Create a preprocessor with the given configuration.
    ///
    /// [`SlamError::InvalidConfig`] if the configuration fails
    /// [`PreprocessConfig::validate`].
    pub fn new(config: PreprocessConfig) -> (r: Result<Self, SlamError>)
        ensures
            match config.fault() {
                Some((field, reason)) => r == Err::<Self, SlamError>(
                    SlamError::InvalidConfig { field, reason },
                ),
                None => r matches Ok(p) && p.spec_config() == config,
            },
    {
        match config.validate() {
            Err(e) => Err(e),
            Ok(()) => Ok(
                Preprocessor {
                    config,
                    gated: Vec::new(),
                    kept: Vec::new(),
                    cell_index: HashMap::new(),
                    accum: Vec::new(),
                },
            ),
        }
    }

    /// The active configuration.
    pub fn config(&self) -> (r: &PreprocessConfig)
        ensures
            *r == self.spec_config(),
    {
        &self.config
    }

    /// Run the full pipeline on `input`, writing the filtered scan into
    /// `output` (its point buffer is cleared and reused; the timestamp is
    /// copied over). Distances in metres throughout.
    ///
    /// [`SlamError::ScanTooLarge`] if `input` has more than
    /// [`PreprocessConfig::max_input_points`] points; `output` then stays as it
    /// was. No other failure: degenerate points are dropped.
    pub fn process<N: Numerics>(&mut self, input: &ScanCloud, output: &mut ScanCloud) -> (r: Result<
        (),
        SlamError,
    >)
        requires
            input.points@.len() <= u32::MAX || input.points@.len() > old(self).spec_config().max_input_points,
        ensures
            final(self).spec_config() == old(self).spec_config(),
            input.points@.len() > old(self).spec_config().max_input_points ==> r == Err::<
                (),
                SlamError,
            >(
                SlamError::ScanTooLarge {
                    actual: input.points@.len() as usize,
                    limit: old(self).spec_config().max_input_points,
                },
            ) && *final(output) == *old(output),
            input.points@.len() <= old(self).spec_config().max_input_points ==> {
                &&& r is Ok
                &&& final(output).timestamp_ns == input.timestamp_ns
                &&& final(output).points@.len() <= input.points@.len()
                &&& deterministic::<N>() ==> final(output).points@ == preprocessed::<N>(
                    input.points@,
                    old(self).spec_config(),
                )
            },
    {
        if input.points.len() > self.config.max_input_points {
            return Err(
                SlamError::ScanTooLarge {
                    actual: input.points.len(),
                    limit: self.config.max_input_points,
                },
            );
        }
        self.range_gate::<N>(&input.points);
        self.reject_outliers::<N>();
        self.voxel_subsample::<N>(&mut output.points);
        output.timestamp_ns = input.timestamp_ns;
        Ok(())
    }

    /// Stage 1: keep points with `min_range_m <= ||p|| <= max_range_m`
    /// (inclusive both ends). Points with a NaN or infinite coordinate are dropped.
    fn range_gate<N: Numerics>(&mut self, points: &Vec<Point2>)
        ensures
            final(self).config == old(self).config,
            final(self).gated@.len() <= points@.len(),
            forall|k: int|
                0 <= k < final(self).gated@.len() ==> (#[trigger] final(self).gated@[k]).is_finite(),
            deterministic::<N>() ==> final(self).gated@ == gated::<N>(points@, old(self).config),
    {
        let min2 = times::<N>(self.config.min_range_m, self.config.min_range_m);
        let max2 = times::<N>(self.config.max_range_m, self.config.max_range_m);
        self.gated.clear();
        let ghost near = |p: Point2| p.is_finite() && in_range(range2::<N>(p), min2, max2);
        proof {
            reveal(Seq::filter);
        }
        for i in 0..points.len()
            invariant
                self.config == old(self).config,
                self.gated@.len() <= i,
                forall|k: int|
                    0 <= k < self.gated@.len() ==> (#[trigger] self.gated@[k]).is_finite(),
                near == (|p: Point2| p.is_finite() && in_range(range2::<N>(p), min2, max2)),
                deterministic::<N>() ==> self.gated@ == points@.take(i as int).filter(near),
        {
            let p = points[i];
            let r2 = plus::<N>(times::<N>(p.x, p.x), times::<N>(p.y, p.y));
            proof {
                reveal(Seq::filter);
                assert(points@.take(i + 1).drop_last() =~= points@.take(i as int));
                assert(points@.take(i + 1).last() == p);
            }
            if p.is_finite() && in_range(r2, min2, max2) {
                self.gated.push(p);
            }
        }
        proof {
            assert(points@.take(points@.len() as int) =~= points@);
        }
    }

    /// Stage 2: keep points with at least `outlier_min_neighbors` other points
    /// within `outlier_radius_m`.
    fn reject_outliers<N: Numerics>(&mut self)
        ensures
            final(self).config == old(self).config,
            final(self).kept@.len() <= old(self).gated@.len(),
            deterministic::<N>() ==> final(self).kept@ == kept::<N>(
                old(self).gated@,
                old(self).config,
            ),
    {
        self.kept.clear();
        let least: usize = self.config.outlier_min_neighbors;
        let n: usize = self.gated.len();
        if least == 0 {
            for i in 0..n
                invariant
                    self.config == old(self).config,
                    self.gated@ == old(self).gated@,
                    n == self.gated@.len(),
                    self.kept@ == self.gated@.take(i as int),
            {
                let p = self.gated[i];
                self.kept.push(p);
                proof {
                    assert(self.gated@.take(i + 1) =~= self.gated@.take(i as int).push(p));
                }
            }
            proof {
                assert(self.gated@.take(n as int) =~= self.gated@);
            }
            return;
        }
        let r2 = times::<N>(self.config.outlier_radius_m, self.config.outlier_radius_m);
        for i in 0..n
            invariant
                self.config == old(self).config,
                self.gated@ == old(self).gated@,
                n == self.gated@.len(),
                self.kept@.len() <= i,
                least > 0,
                deterministic::<N>() ==> self.kept@ == crowded::<N>(
                    self.gated@,
                    least as nat,
                    r2,
                    i as nat,
                ),
        {
            let p = self.gated[i];
            if has_neighbours::<N>(&self.gated, i, r2, least) {
                self.kept.push(p);
            }
        }
    }

    /// Stage 3: collapse each voxel's points to their centroid, in first-seen
    /// cell order.
    fn voxel_subsample<N: Numerics>(&mut self, out: &mut Vec<Point2>)
        requires
            old(self).kept@.len() <= u32::MAX,
        ensures
            final(self).config == old(self).config,
            final(out)@.len() <= old(self).kept@.len(),
            deterministic::<N>() ==> final(out)@ == subsampled::<N>(
                old(self).kept@,
                old(self).config,
            ),
    {
        broadcast use vstd::std_specs::hash::group_hash_axioms;

        self.cell_index.clear();
        self.accum.clear();
        let inv_voxel = over::<N>(F64 { bits: ONE }, self.config.voxel_size_m);
        let n: usize = self.kept.len();
        for i in 0..n
            invariant
                self.config == old(self).config,
                self.kept@ == old(self).kept@,
                n == self.kept@.len(),
                n <= u32::MAX,
                self.accum@.len() <= i,
                indexed(self.accum@, self.cell_index@),
                forall|k: int|
                    0 <= k < self.accum@.len() ==> #[trigger] self.accum@[k].count <= i,
                deterministic::<N>() ==> self.accum@ == voxels::<N>(
                    self.kept@,
                    inv_voxel,
                    i as nat,
                ),
        {
            let p = self.kept[i];
            let ghost before = self.accum@;
            match floor_cell(times::<N>(p.x, inv_voxel), times::<N>(p.y, inv_voxel)) {
                Some(cell) => {
                    let number: u128 = number_cell(cell);
                    match self.cell_index.get(&number) {
                        Some(slot) => {
                            let k: usize = *slot;
                            let v = self.accum[k];
                            proof {
                                lemma_cell_number_is_injective(v.cell, cell);
                                lemma_slot(before, self.cell_index@, k as int);
                            }
                            let grown = Voxel {
                                cell: v.cell,
                                sum_x: plus::<N>(v.sum_x, p.x),
                                sum_y: plus::<N>(v.sum_y, p.y),
                                count: v.count + 1,
                            };
                            self.accum.set(k, grown);
                        },
                        None => {
                            proof {
                                if has_cell(before, cell) {
                                    let k = slot_of(before, cell);
                                    assert(self.cell_index@.contains_key(
                                        cell_number(before[k].cell) as u128,
                                    ));
                                }
                            }
                            self.cell_index.insert(number, self.accum.len());
                            self.accum.push(
                                Voxel { cell, sum_x: p.x, sum_y: p.y, count: 1 },
                            );
                        },
                    }
                },
                None => {},
            }
        }
        out.clear();
        for k in 0..self.accum.len()
            invariant
                self.config == old(self).config,
                out@.len() == k,
                deterministic::<N>() ==> out@ == self.accum@.take(k as int).map_values(
                    |v: Voxel| centroid::<N>(v),
                ),
        {
            let v = self.accum[k];
            let c = Point2::new(
                over::<N>(v.sum_x, from_u32::<N>(v.count)),
                over::<N>(v.sum_y, from_u32::<N>(v.count)),
            );
            out.push(c);
            proof {
                assert(self.accum@.take(k + 1) =~= self.accum@.take(k as int).push(v));
                assert(self.accum@.take(k + 1).map_values(|v: Voxel| centroid::<N>(v))
                    =~= self.accum@.take(k as int).map_values(|v: Voxel| centroid::<N>(v)).push(
                    centroid::<N>(v),
                ));
            }
        }
        proof {
            assert(self.accum@.take(self.accum@.len() as int) =~= self.accum@);
        }
    }
}

/// Every voxel's slot is found under the number of its cell, and nothing else
/// is.
spec fn indexed(accum: Seq<Voxel>, index: Map<u128, usize>) -> bool {
    &&& forall|k: int|
        0 <= k < accum.len() ==> {
            let number = cell_number((#[trigger] accum[k]).cell) as u128;
            &&& exact_cell(accum[k].cell)
            &&& index.contains_key(number)
            &&& index[number] == k
        }
    &&& forall|number: u128| #[trigger]
        index.contains_key(number) ==> {
            &&& index[number] < accum.len()
            &&& cell_number(accum[index[number] as int].cell) == number
        }
}

/// The indexed slot of a cell is the only one.
proof fn lemma_slot(accum: Seq<Voxel>, index: Map<u128, usize>, k: int)
    requires
        indexed(accum, index),
        0 <= k < accum.len(),
    ensures
        has_cell(accum, accum[k].cell),
        slot_of(accum, accum[k].cell) == k,
{
    let j = slot_of(accum, accum[k].cell);
    assert(accum[k].cell == accum[k].cell);
    assert(accum[j].cell == accum[k].cell);
}

/// `true` if point `i` has at least `least` neighbours within the squared radius
/// `r2`.
fn has_neighbours<N: Numerics>(points: &Vec<Point2>, i: usize, r2: F64, least: usize) -> (r: bool)
    requires
        i < points@.len(),
        least > 0,
    ensures
        deterministic::<N>() ==> r == (neighbours::<N>(points@, i as int, r2, points@.len())
            >= least),
{
    let p = points[i];
    let mut count: usize = 0;
    for j in 0..points.len()
        invariant
            i < points@.len(),
            p == points@[i as int],
            count <= j,
            count < least,
            deterministic::<N>() ==> count == neighbours::<N>(points@, i as int, r2, j as nat),
    {
        let q = points[j];
        if i != j {
            let dx = minus::<N>(p.x, q.x);
            let dy = minus::<N>(p.y, q.y);
            if plus::<N>(times::<N>(dx, dx), times::<N>(dy, dy)).le(r2) {
                count += 1;
                if count >= least {
                    proof {
                        lemma_neighbours_grow::<N>(
                            points@,
                            i as int,
                            r2,
                            (j + 1) as nat,
                            points@.len(),
                        );
                    }
                    return true;
                }
            }
        }
    }
    false
}

/// More points hold no fewer neighbours.
proof fn lemma_neighbours_grow<N: Numerics>(
    points: Seq<Point2>,
    i: int,
    r2: F64,
    m: nat,
    n: nat,
)
    requires
        m <= n,
    ensures
        neighbours::<N>(points, i, r2, m) <= neighbours::<N>(points, i, r2, n),
    decreases n,
{
    if m < n {
        lemma_neighbours_grow::<N>(points, i, r2, m, (n - 1) as nat);
    }
}

/// No two voxels share a cell, and there are no more of them than points: what
/// subsampling returns holds one point per occupied voxel.
pub proof fn law_one_voxel_per_cell<N: Numerics>(points: Seq<Point2>, inv_voxel: F64, n: nat)
    ensures
        voxels::<N>(points, inv_voxel, n).len() <= n,
        forall|j: int, k: int|
            0 <= j < k < voxels::<N>(points, inv_voxel, n).len() ==> #[trigger] voxels::<N>(
                points,
                inv_voxel,
                n,
            )[j].cell != #[trigger] voxels::<N>(points, inv_voxel, n)[k].cell,
        forall|cell: (i64, i64)| #[trigger]
            has_cell(voxels::<N>(points, inv_voxel, n), cell) <==> exists|i: int|
                0 <= i < n && #[trigger] voxel_cell::<N>(points[i], inv_voxel) == Some(cell),
    decreases n,
{
    if n > 0 {
        let m = (n - 1) as nat;
        law_one_voxel_per_cell::<N>(points, inv_voxel, m);
        let before = voxels::<N>(points, inv_voxel, m);
        let after = voxels::<N>(points, inv_voxel, n);
        let own = voxel_cell::<N>(points[n - 1], inv_voxel);
        assert forall|cell: (i64, i64)| #[trigger] has_cell(after, cell) <==> exists|i: int|
            0 <= i < n && #[trigger] voxel_cell::<N>(points[i], inv_voxel) == Some(cell) by {
            if has_cell(before, cell) {
                let k = slot_of(before, cell);
                assert(after[k].cell == cell);
                let i = choose|i: int|
                    0 <= i < m && #[trigger] voxel_cell::<N>(points[i], inv_voxel) == Some(cell);
                assert(0 <= i < n);
            }
            if own == Some(cell) && !has_cell(before, cell) {
                assert(after[before.len() as int].cell == cell);
            }
            if has_cell(after, cell) {
                let k = slot_of(after, cell);
                if k < before.len() {
                    assert(before[k].cell == cell);
                }
            }
        }
    }
}

/// Every point that comes through the range gate is one of the input's, is finite
/// and lies within the range bounds; every input point that does comes through.
pub proof fn law_gate_keeps_exactly_the_points_in_range<N: Numerics>(
    points: Seq<Point2>,
    config: PreprocessConfig,
)
    ensures
        forall|p: Point2| #[trigger]
            gated::<N>(points, config).contains(p) <==> points.contains(p) && p.is_finite() && in_range(
                range2::<N>(p),
                product::<N>(config.min_range_m, config.min_range_m),
                product::<N>(config.max_range_m, config.max_range_m),
            ),
{
    let min2 = product::<N>(config.min_range_m, config.min_range_m);
    let max2 = product::<N>(config.max_range_m, config.max_range_m);
    let near = |p: Point2| p.is_finite() && in_range(range2::<N>(p), min2, max2);
    broadcast use vstd::seq_lib::group_filter_ensures;

    assert forall|p: Point2| #[trigger] gated::<N>(points, config).contains(p) implies points.contains(p)
        && near(p) by {
        let f = points.filter(near);
        let k = choose|k: int| 0 <= k < f.len() && f[k] == p;
        assert(f.contains(f[k]));
        assert(near(f[k]));
        lemma_filter_draws_from(points, near, k);
    }
    assert forall|p: Point2| points.contains(p) && near(p) implies #[trigger] gated::<N>(
        points,
        config,
    ).contains(p) by {
        let k = choose|k: int| 0 <= k < points.len() && points[k] == p;
        assert(points.filter(near).contains(points[k]));
    }
}

/// What a filter keeps comes from the sequence.
proof fn lemma_filter_draws_from(s: Seq<Point2>, pred: spec_fn(Point2) -> bool, k: int)
    requires
        0 <= k < s.filter(pred).len(),
    ensures
        s.contains(s.filter(pred)[k]),
    decreases s.len(),
{
    reveal(Seq::filter);
    if s.len() > 0 {
        let rest = s.drop_last();
        if k < rest.filter(pred).len() {
            lemma_filter_draws_from(rest, pred, k);
            let v = rest.filter(pred)[k];
            let j = choose|j: int| 0 <= j < rest.len() && rest[j] == v;
            assert(s[j] == v);
        } else {
            assert(s[s.len() - 1] == s.filter(pred)[k]);
        }
    }
}

// ---- What the stages mean in metres ----

/// The exact squared range of a point, in units.
pub open spec fn exact_range2(p: Point2) -> int {
    p.x.units() * p.x.units() + p.y.units() * p.y.units()
}

/// A point lies within two ranges by more than the rounding.
pub open spec fn well_within(c: Accuracy, p: Point2, min: F64, max: F64) -> bool {
    &&& min.units() * min.units() + 4 * (unit() * c.e) <= exact_range2(p)
    &&& exact_range2(p) + 4 * (unit() * c.e) <= max.units() * max.units()
}

/// A point lies within two ranges, or outside by no more than the rounding.
pub open spec fn about_within(c: Accuracy, p: Point2, min: F64, max: F64) -> bool {
    &&& min.units() * min.units() <= exact_range2(p) + 4 * (unit() * c.e)
    &&& exact_range2(p) <= max.units() * max.units() + 4 * (unit() * c.e)
}

/// The test of a range, by the exact values.
proof fn lemma_range_test<N: Numerics>(c: Accuracy, p: Point2, min: F64, max: F64)
    requires
        c.wf(),
        c.describes::<N>(),
        c.is_factor(p.x),
        c.is_factor(p.y),
        c.is_factor(min),
        c.is_factor(max),
    ensures
        in_range(range2::<N>(p), product::<N>(min, min), product::<N>(max, max)) ==> about_within(
            c,
            p,
            min,
            max,
        ),
        well_within(c, p, min, max) ==> in_range(
            range2::<N>(p),
            product::<N>(min, min),
            product::<N>(max, max),
        ),
{
    lemma_units_of_constants();
    lemma_sum_of_squares::<N>(c, p.x, p.y);
    lemma_product_admitted::<N>(c, min, min);
    lemma_product_admitted::<N>(c, max, max);
    let (r, a, b) = (range2::<N>(p), product::<N>(min, min), product::<N>(max, max));
    law_order_is_value_order(a, r);
    law_order_is_value_order(r, b);
    lemma_multiple_order(unit(), a.units(), r.units());
    lemma_multiple_order(unit(), r.units(), b.units());
}

/// The range gate keeps a point of the scan by its exact distance from the sensor: what
/// comes through lies between the two ranges, up to rounding, and every finite point
/// that lies between them by more than the rounding comes through.
pub proof fn law_gate_goes_by_distance<N: Numerics>(
    c: Accuracy,
    points: Seq<Point2>,
    config: PreprocessConfig,
    p: Point2,
)
    requires
        c.wf(),
        c.describes::<N>(),
        c.is_factor(p.x),
        c.is_factor(p.y),
        c.is_factor(config.min_range_m),
        c.is_factor(config.max_range_m),
    ensures
        gated::<N>(points, config).contains(p) ==> points.contains(p) && about_within(
            c,
            p,
            config.min_range_m,
            config.max_range_m,
        ),
        points.contains(p) && well_within(c, p, config.min_range_m, config.max_range_m)
            ==> gated::<N>(points, config).contains(p),
{
    lemma_range_test::<N>(c, p, config.min_range_m, config.max_range_m);
    law_gate_keeps_exactly_the_points_in_range::<N>(points, config);
}

/// A point that is not finite, or lies out of range by more than the rounding, has no
/// effect on the result, wherever it stands in the scan.
pub proof fn law_point_out_of_range_has_no_effect<N: Numerics>(
    c: Accuracy,
    a: Seq<Point2>,
    p: Point2,
    b: Seq<Point2>,
    config: PreprocessConfig,
)
    requires
        c.wf(),
        c.describes::<N>(),
        c.is_factor(config.min_range_m),
        c.is_factor(config.max_range_m),
        !p.is_finite() || (c.is_factor(p.x) && c.is_factor(p.y) && !about_within(
            c,
            p,
            config.min_range_m,
            config.max_range_m,
        )),
    ensures
        preprocessed::<N>(a + seq![p] + b, config) == preprocessed::<N>(a + b, config),
{
    if p.is_finite() {
        lemma_range_test::<N>(c, p, config.min_range_m, config.max_range_m);
    }
    let min2 = product::<N>(config.min_range_m, config.min_range_m);
    let max2 = product::<N>(config.max_range_m, config.max_range_m);
    let near = |q: Point2| q.is_finite() && in_range(range2::<N>(q), min2, max2);
    Seq::filter_distributes_over_add(a + seq![p], b, near);
    Seq::filter_distributes_over_add(a, seq![p], near);
    Seq::filter_distributes_over_add(a, b, near);
    reveal(Seq::filter);
    assert(seq![p].drop_last() =~= Seq::<Point2>::empty());
    assert(Seq::<Point2>::empty().filter(near) =~= Seq::<Point2>::empty());
    assert(seq![p].last() == p);
    assert(!near(p));
    assert(seq![p].filter(near) =~= Seq::<Point2>::empty());
    assert(a.filter(near) + Seq::<Point2>::empty() =~= a.filter(near));
    assert(gated::<N>(a + seq![p] + b, config) =~= gated::<N>(a + b, config));
}

/// The exact squared distance of two points, in units.
pub open spec fn exact_distance2(p: Point2, q: Point2) -> int {
    let (x, y) = (p.x.units() - q.x.units(), p.y.units() - q.y.units());
    x * x + y * y
}

/// Error of a squared distance against a squared radius, times one.
pub open spec fn crowd_error(c: Accuracy) -> int {
    distance_error(c) + unit() * c.e
}

/// All points are operands, no farther apart than a factor.
pub open spec fn comparable(c: Accuracy, points: Seq<Point2>) -> bool {
    forall|i: int, j: int|
        #![trigger points[i], points[j]]
        0 <= i < points.len() && 0 <= j < points.len() ==> {
            &&& c.admits(points[i].x) && c.admits(points[i].y)
            &&& near(points[i].x.units() - points[j].x.units(), 0, c.side - c.e)
            &&& near(points[i].y.units() - points[j].y.units(), 0, c.side - c.e)
        }
}

/// Point `j` is another point than `i`, and within the squared distance `d2` of it.
pub open spec fn is_company(points: Seq<Point2>, i: int, d2: int) -> spec_fn(int) -> bool {
    |j: int| j != i && exact_distance2(points[i], points[j]) <= d2
}

/// Neighbours are counted as a set of other points.
proof fn lemma_neighbours_are_counted<N: Numerics>(
    c: Accuracy,
    points: Seq<Point2>,
    i: int,
    radius: F64,
    n: nat,
)
    requires
        c.wf(),
        c.describes::<N>(),
        comparable(c, points),
        c.is_factor(radius),
        0 <= i < points.len(),
        n <= points.len(),
    ensures
        ({
            let r2 = radius.units() * radius.units();
            let count = neighbours::<N>(points, i, product::<N>(radius, radius), n);
            &&& indices(n, is_company(points, i, r2 - crowd_error(c))).len() <= count
            &&& count <= indices(n, is_company(points, i, r2 + crowd_error(c))).len()
        }),
    decreases n,
{
    let r2 = radius.units() * radius.units();
    let strict = is_company(points, i, r2 - crowd_error(c));
    let loose = is_company(points, i, r2 + crowd_error(c));
    lemma_indices_step(0, strict);
    lemma_indices_step(0, loose);
    if n > 0 {
        let j = n - 1;
        lemma_neighbours_are_counted::<N>(c, points, i, radius, j as nat);
        lemma_indices_step(j as nat, strict);
        lemma_indices_step(j as nat, loose);
        lemma_units_of_constants();
        let (p, q) = (points[i], points[j]);
        lemma_squared_distance::<N>(c, p.x, p.y, q.x, q.y);
        lemma_product_admitted::<N>(c, radius, radius);
        let d = distance2::<N>(p, q);
        let r = product::<N>(radius, radius);
        law_order_is_value_order(d, r);
        lemma_multiple_order(unit(), d.units(), r.units());
    }
}

/// A crowded point is one of the points with enough neighbours.
proof fn lemma_crowded<N: Numerics>(points: Seq<Point2>, least: nat, r2: F64, n: nat, p: Point2)
    requires
        n <= points.len(),
    ensures
        crowded::<N>(points, least, r2, n).contains(p) <==> exists|i: int|
            0 <= i < n && #[trigger] points[i] == p && neighbours::<N>(
                points,
                i,
                r2,
                points.len(),
            ) >= least,
    decreases n,
{
    if n > 0 {
        let m = (n - 1) as nat;
        lemma_crowded::<N>(points, least, r2, m, p);
        let before = crowded::<N>(points, least, r2, m);
        let now = crowded::<N>(points, least, r2, n);
        if before.contains(p) {
            let k = choose|k: int| 0 <= k < before.len() && before[k] == p;
            assert(now[k] == p);
            let i = choose|i: int|
                0 <= i < m && #[trigger] points[i] == p && neighbours::<N>(
                    points,
                    i,
                    r2,
                    points.len(),
                ) >= least;
            assert(points[i] == p);
        }
        if now.contains(p) && !before.contains(p) {
            let k = choose|k: int| 0 <= k < now.len() && now[k] == p;
            if k < before.len() {
                assert(before[k] == p);
            }
            assert(points[m as int] == p);
        }
        if points[m as int] == p && neighbours::<N>(points, m as int, r2, points.len()) >= least {
            assert(now[before.len() as int] == p);
        }
        if exists|i: int|
            0 <= i < n && #[trigger] points[i] == p && neighbours::<N>(
                points,
                i,
                r2,
                points.len(),
            ) >= least {
            let i = choose|i: int|
                0 <= i < n && #[trigger] points[i] == p && neighbours::<N>(
                    points,
                    i,
                    r2,
                    points.len(),
                ) >= least;
            if i < m {
                assert(points[i] == p);
                assert(before.contains(p));
            }
        }
    }
}

/// Outlier rejection goes by the number of other points within the radius, by the exact
/// distances: a point with enough of them, nearer than the radius by more than the
/// rounding, is kept, and what is kept has enough of them, up to rounding. If none is
/// asked for, every point is kept.
pub proof fn law_outliers_are_lonely_points<N: Numerics>(
    c: Accuracy,
    points: Seq<Point2>,
    config: PreprocessConfig,
)
    requires
        c.wf(),
        c.describes::<N>(),
        comparable(c, points),
        c.is_factor(config.outlier_radius_m),
    ensures
        config.outlier_min_neighbors == 0 ==> kept::<N>(points, config) == points,
        config.outlier_min_neighbors > 0 ==> ({
            let r2 = config.outlier_radius_m.units() * config.outlier_radius_m.units();
            &&& forall|i: int|
                #![trigger points[i]]
                0 <= i < points.len() && indices(
                    points.len(),
                    is_company(points, i, r2 - crowd_error(c)),
                ).len() >= config.outlier_min_neighbors ==> kept::<N>(points, config).contains(
                    points[i],
                )
            &&& forall|p: Point2| #[trigger]
                kept::<N>(points, config).contains(p) ==> exists|i: int|
                    0 <= i < points.len() && #[trigger] points[i] == p && indices(
                        points.len(),
                        is_company(points, i, r2 + crowd_error(c)),
                    ).len() >= config.outlier_min_neighbors
        }),
{
    let radius = config.outlier_radius_m;
    let least = config.outlier_min_neighbors as nat;
    let d2 = product::<N>(radius, radius);
    let r2 = radius.units() * radius.units();
    if config.outlier_min_neighbors > 0 {
        assert forall|i: int|
            #![trigger points[i]]
            0 <= i < points.len() && indices(
                points.len(),
                is_company(points, i, r2 - crowd_error(c)),
            ).len() >= config.outlier_min_neighbors implies kept::<N>(points, config).contains(
            points[i],
        ) by {
            lemma_neighbours_are_counted::<N>(c, points, i, radius, points.len());
            lemma_crowded::<N>(points, least, d2, points.len(), points[i]);
        }
        assert forall|p: Point2| #[trigger] kept::<N>(points, config).contains(p) implies exists|
            i: int,
        |
            0 <= i < points.len() && #[trigger] points[i] == p && indices(
                points.len(),
                is_company(points, i, r2 + crowd_error(c)),
            ).len() >= config.outlier_min_neighbors by {
            lemma_crowded::<N>(points, least, d2, points.len(), p);
            let i = choose|i: int|
                0 <= i < points.len() && #[trigger] points[i] == p && neighbours::<N>(
                    points,
                    i,
                    d2,
                    points.len(),
                ) >= least;
            lemma_neighbours_are_counted::<N>(c, points, i, radius, points.len());
        }
    }
}

/// Point `i` falls into `cell`.
pub open spec fn falls_into<N: Numerics>(
    points: Seq<Point2>,
    inv_voxel: F64,
    cell: (i64, i64),
) -> spec_fn(int) -> bool {
    |i: int| voxel_cell::<N>(points[i], inv_voxel) == Some(cell)
}

/// The exact sum of the coordinates of those of the first `n` points that fall into
/// `cell`, in units.
pub open spec fn exact_sum<N: Numerics>(
    points: Seq<Point2>,
    inv_voxel: F64,
    cell: (i64, i64),
    n: nat,
) -> (int, int)
    decreases n,
{
    if n == 0 {
        (0, 0)
    } else {
        let (x, y) = exact_sum::<N>(points, inv_voxel, cell, (n - 1) as nat);
        let p = points[n - 1];
        if voxel_cell::<N>(p, inv_voxel) == Some(cell) {
            (x + p.x.units(), y + p.y.units())
        } else {
            (x, y)
        }
    }
}

/// What a voxel holds: as many points as fall into its cell, and the sums of their
/// coordinates up to one error per point.
pub proof fn law_voxel_holds_its_points<N: Numerics>(
    c: Accuracy,
    points: Seq<Point2>,
    inv_voxel: F64,
    n: nat,
    k: int,
)
    requires
        c.wf(),
        c.describes::<N>(),
        n <= points.len(),
        points.len() <= u32::MAX,
        forall|i: int|
            0 <= i < points.len() ==> c.is_factor((#[trigger] points[i]).x) && c.is_factor(
                points[i].y,
            ),
        points.len() * (c.side + c.e) <= c.limit,
        0 <= k < voxels::<N>(points, inv_voxel, n).len(),
    ensures
        ({
            let v = voxels::<N>(points, inv_voxel, n)[k];
            let (x, y) = exact_sum::<N>(points, inv_voxel, v.cell, n);
            &&& v.count >= 1
            &&& v.count == indices(n, falls_into::<N>(points, inv_voxel, v.cell)).len()
            &&& v.sum_x.is_finite() && near(v.sum_x.units(), x, v.count * c.e)
            &&& v.sum_y.is_finite() && near(v.sum_y.units(), y, v.count * c.e)
            &&& near(x, 0, v.count * c.side) && near(y, 0, v.count * c.side)
        }),
    decreases n,
{
    let m = (n - 1) as nat;
    let before = voxels::<N>(points, inv_voxel, m);
    let now = voxels::<N>(points, inv_voxel, n);
    let p = points[m as int];
    let v = now[k];
    let pick = falls_into::<N>(points, inv_voxel, v.cell);
    lemma_indices_step(m, pick);
    lemma_indices_finite(m, pick);
    law_one_voxel_per_cell::<N>(points, inv_voxel, m);
    let own = voxel_cell::<N>(p, inv_voxel);
    if k < before.len() {
        law_voxel_holds_its_points::<N>(c, points, inv_voxel, m, k);
        let w = before[k];
        assert(w.cell == v.cell);
        if own == Some(w.cell) {
            assert(has_cell(before, w.cell));
            let j = slot_of(before, w.cell);
            assert(before[j].cell == w.cell);
            assert(j == k);
            let (count, e, side, total) = (w.count as int, c.e, c.side, points.len() as int);
            assert((count + 1) * e == count * e + e && (count + 1) * side == count * side + side)
                by (nonlinear_arith);
            assert(count * side + count * e <= total * (side + e)) by (nonlinear_arith)
                requires
                    0 <= count <= total,
                    side >= 0,
                    e >= 0,
            ;
            assert(count * side >= 0 && count * e >= 0) by (nonlinear_arith)
                requires
                    count >= 0,
                    side >= 0,
                    e >= 0,
            ;
            assert(c.admits(w.sum_x) && c.admits(w.sum_y) && c.admits(p.x) && c.admits(p.y));
        } else {
            assert(w == v);
        }
    } else {
        let cell = v.cell;
        assert(own == Some(cell));
        assert(!has_cell(before, cell));
        lemma_nothing_falls_into::<N>(points, inv_voxel, cell, m);
        assert(1 * c.e == c.e && 1 * c.side == c.side);
    }
}

/// A cell without a voxel has no points.
proof fn lemma_nothing_falls_into<N: Numerics>(
    points: Seq<Point2>,
    inv_voxel: F64,
    cell: (i64, i64),
    n: nat,
)
    requires
        forall|i: int|
            0 <= i < n ==> #[trigger] voxel_cell::<N>(points[i], inv_voxel) != Some(cell),
    ensures
        exact_sum::<N>(points, inv_voxel, cell, n) == (0int, 0int),
        indices(n, falls_into::<N>(points, inv_voxel, cell)).len() == 0,
    decreases n,
{
    let pick = falls_into::<N>(points, inv_voxel, cell);
    lemma_indices_step(0, pick);
    if n > 0 {
        lemma_nothing_falls_into::<N>(points, inv_voxel, cell, (n - 1) as nat);
        lemma_indices_step((n - 1) as nat, pick);
        assert(voxel_cell::<N>(points[n - 1], inv_voxel) != Some(cell));
    }
}

/// The centroid of a voxel is the mean of its points: times their number, it is the sum
/// of their coordinates, up to two errors per point.
pub proof fn law_centroid_is_the_mean<N: Numerics>(
    c: Accuracy,
    points: Seq<Point2>,
    inv_voxel: F64,
    k: int,
)
    requires
        c.wf(),
        c.describes::<N>(),
        c.describes_quotients::<N>(),
        c.counts::<N>(),
        points.len() <= u32::MAX,
        forall|i: int|
            0 <= i < points.len() ==> c.is_factor((#[trigger] points[i]).x) && c.is_factor(
                points[i].y,
            ),
        points.len() * (c.side + c.e) <= c.limit,
        0 <= k < voxels::<N>(points, inv_voxel, points.len()).len(),
    ensures
        ({
            let v = voxels::<N>(points, inv_voxel, points.len())[k];
            let (x, y) = exact_sum::<N>(points, inv_voxel, v.cell, points.len());
            let m = centroid::<N>(v);
            &&& near(v.count * m.x.units(), x, 2 * (v.count * c.e))
            &&& near(v.count * m.y.units(), y, 2 * (v.count * c.e))
        }),
{
    law_voxel_holds_its_points::<N>(c, points, inv_voxel, points.len(), k);
    lemma_indices_finite(
        points.len(),
        falls_into::<N>(
            points,
            inv_voxel,
            voxels::<N>(points, inv_voxel, points.len())[k].cell,
        ),
    );
    let v = voxels::<N>(points, inv_voxel, points.len())[k];
    lemma_mean::<N>(c, v.sum_x, v.count, points.len());
    lemma_mean::<N>(c, v.sum_y, v.count, points.len());
}

/// A quotient by a count, times the count.
proof fn lemma_mean<N: Numerics>(c: Accuracy, total: F64, count: u32, most: nat)
    requires
        c.wf(),
        c.describes_quotients::<N>(),
        c.counts::<N>(),
        1 <= count <= most,
        total.is_finite(),
        near(total.units(), 0, count * c.side + count * c.e),
        most * (c.side + c.e) <= c.limit,
    ensures
        near(
            count * quotient::<N>(total, float_of::<N>(count)).units(),
            total.units(),
            count * c.e,
        ),
{
    lemma_units_of_constants();
    let n = float_of::<N>(count);
    let (u, k, t) = (unit(), count as int, total.units());
    let (side, e, limit) = (c.side, c.e, c.limit);
    assert(k * u > 0) by (nonlinear_arith)
        requires
            k >= 1,
            u > 0,
    ;
    assert(side + e <= limit) by (nonlinear_arith)
        requires
            most >= 1,
            most * (side + e) <= limit,
            side >= 0,
            e >= 0,
    ;
    assert(u * size(t) <= limit * (k * u)) by (nonlinear_arith)
        requires
            u > 0,
            k >= 1,
            size(t) <= k * side + k * e,
            side + e <= limit,
            size(t) >= 0,
            side >= 0,
            e >= 0,
    ;
    let r = quotient::<N>(total, n).units();
    assert(r * (k * u) == u * (k * r) && e * (k * u) == u * (k * e)) by (nonlinear_arith);
    assert(u * (k * r) - u * t == u * (k * r - t)) by (nonlinear_arith);
    lemma_divided_bound(u, k * r - t, k * e);
}

/// A point lies in its voxel: its coordinates, in voxels, are between the numbers of the
/// cell and the next ones, up to rounding.
pub proof fn law_point_lies_in_its_voxel<N: Numerics>(
    c: Accuracy,
    p: Point2,
    inv_voxel: F64,
    cell: (i64, i64),
)
    requires
        c.wf(),
        c.describes::<N>(),
        c.is_factor(p.x) && c.is_factor(p.y) && c.is_factor(inv_voxel),
        voxel_cell::<N>(p, inv_voxel) == Some(cell),
    ensures
        unit() * (cell.0 * unit() - c.e) <= p.x.units() * inv_voxel.units() < unit() * (cell.0
            * unit() + unit() + c.e),
        unit() * (cell.1 * unit() - c.e) <= p.y.units() * inv_voxel.units() < unit() * (cell.1
            * unit() + unit() + c.e),
{
    lemma_in_cell::<N>(c, p.x, inv_voxel);
    lemma_in_cell::<N>(c, p.y, inv_voxel);
}

/// A coordinate lies between its floor and the next integer.
proof fn lemma_in_cell<N: Numerics>(c: Accuracy, a: F64, inv: F64)
    requires
        c.wf(),
        c.describes::<N>(),
        c.is_factor(a),
        c.is_factor(inv),
        floored(product::<N>(a, inv)) is Some,
    ensures
        ({
            let i = floored(product::<N>(a, inv))->0;
            unit() * (i * unit() - c.e) <= a.units() * inv.units() < unit() * (i * unit() + unit()
                + c.e)
        }),
{
    lemma_units_of_constants();
    lemma_product_admitted::<N>(c, a, inv);
    lemma_floor_is_exact(product::<N>(a, inv));
    let (u, e, p) = (unit(), c.e, product::<N>(a, inv).units());
    let i = floored(product::<N>(a, inv))->0 as int;
    let (low, high) = (i * u, i * u + u);
    assert(u * (low - e) <= u * p - u * e && u * p + u * e < u * (high + e)) by (nonlinear_arith)
        requires
            u > 0,
            low <= p < high,
    ;
}

/// The voxel size fits the arithmetic: its inverse is a factor, and not zero.
pub open spec fn is_voxel_size(c: Accuracy, size_m: F64) -> bool {
    let v = size_m.units();
    &&& size_m.is_finite()
    &&& v > 0
    &&& c.e * v < unit() * unit()
    &&& unit() * unit() + c.e * v <= c.side * v
}

/// The inverse of a voxel size.
proof fn lemma_inverse<N: Numerics>(c: Accuracy, size_m: F64)
    requires
        c.wf(),
        c.describes_quotients::<N>(),
        is_voxel_size(c, size_m),
    ensures
        ({
            let inv = quotient::<N>(F64 { bits: ONE }, size_m);
            &&& c.is_factor(inv)
            &&& inv.units() > 0
            &&& near(inv.units() * size_m.units(), unit() * unit(), c.e * size_m.units())
        }),
{
    lemma_units_of_constants();
    let (u, v, e, side) = (unit(), size_m.units(), c.e, c.side);
    assert(u * size((F64 { bits: ONE }).units()) <= c.limit * size(v)) by (nonlinear_arith)
        requires
            (F64 { bits: ONE }).units() == u,
            u > 0,
            v > 0,
            e >= 0,
            u * u + e * v <= side * v,
            side <= c.limit,
            size(u) == u,
            size(v) == v,
    ;
    let i = quotient::<N>(F64 { bits: ONE }, size_m).units();
    assert(0 < i <= side) by (nonlinear_arith)
        requires
            v > 0,
            i * v <= u * u + e * v,
            i * v >= u * u - e * v,
            e * v < u * u,
            u * u + e * v <= side * v,
    ;
}

/// Two points of one voxel are less than one voxel size apart in each coordinate, up to
/// rounding.
pub proof fn law_points_of_a_voxel_are_close<N: Numerics>(
    c: Accuracy,
    p: Point2,
    q: Point2,
    size_m: F64,
    cell: (i64, i64),
)
    requires
        c.wf(),
        c.describes::<N>(),
        c.describes_quotients::<N>(),
        is_voxel_size(c, size_m),
        c.is_factor(p.x) && c.is_factor(p.y) && c.is_factor(q.x) && c.is_factor(q.y),
        voxel_cell::<N>(p, quotient::<N>(F64 { bits: ONE }, size_m)) == Some(cell),
        voxel_cell::<N>(q, quotient::<N>(F64 { bits: ONE }, size_m)) == Some(cell),
    ensures
        size(p.x.units() - q.x.units()) * (unit() * unit() - c.e * size_m.units()) < (unit()
            * (unit() + 2 * c.e)) * size_m.units(),
        size(p.y.units() - q.y.units()) * (unit() * unit() - c.e * size_m.units()) < (unit()
            * (unit() + 2 * c.e)) * size_m.units(),
{
    let inv = quotient::<N>(F64 { bits: ONE }, size_m);
    lemma_inverse::<N>(c, size_m);
    lemma_one_cell_apart::<N>(c, p.x, q.x, inv);
    lemma_one_cell_apart::<N>(c, p.y, q.y, inv);
    let (i, v, one, e) = (inv.units(), size_m.units(), unit() * unit(), c.e);
    lemma_in_voxels(size(p.x.units() - q.x.units()), i, v, one, e * v, unit() * (unit() + 2 * e));
    lemma_in_voxels(size(p.y.units() - q.y.units()), i, v, one, e * v, unit() * (unit() + 2 * e));
}

/// A distance in voxels is a distance.
proof fn lemma_in_voxels(d: int, i: int, v: int, one: int, slack: int, bound: int)
    requires
        d >= 0,
        v > 0,
        i * v >= one - slack,
        d * i < bound,
    ensures
        d * (one - slack) < bound * v,
{
    assert(d * (one - slack) <= d * (i * v)) by (nonlinear_arith)
        requires
            d >= 0,
            i * v >= one - slack,
    ;
    assert(d * (i * v) == (d * i) * v) by (nonlinear_arith);
    assert((d * i) * v < bound * v) by (nonlinear_arith)
        requires
            v > 0,
            d * i < bound,
    ;
}

/// `m` is the mean of those of the points that fall into `cell`, of which there is at
/// least one.
pub open spec fn is_mean_of_cell<N: Numerics>(
    c: Accuracy,
    points: Seq<Point2>,
    inv_voxel: F64,
    cell: (i64, i64),
    m: Point2,
) -> bool {
    let count = indices(points.len(), falls_into::<N>(points, inv_voxel, cell)).len();
    let (x, y) = exact_sum::<N>(points, inv_voxel, cell, points.len());
    &&& count >= 1
    &&& near(count * m.x.units(), x, 2 * (count * c.e))
    &&& near(count * m.y.units(), y, 2 * (count * c.e))
}

/// `m` is the mean of the points of some cell.
pub open spec fn is_mean_of_some_cell<N: Numerics>(
    c: Accuracy,
    points: Seq<Point2>,
    inv_voxel: F64,
    m: Point2,
) -> bool {
    exists|cell: (i64, i64)| #[trigger] is_mean_of_cell::<N>(c, points, inv_voxel, cell, m)
}

/// Subsampling gives one point per occupied voxel, the mean of the points in it: each
/// result is the mean of some voxel, each point's voxel has its mean in the result, and
/// there are no more results than points.
pub proof fn law_subsampling_averages_voxels<N: Numerics>(
    c: Accuracy,
    points: Seq<Point2>,
    config: PreprocessConfig,
)
    requires
        c.wf(),
        c.describes::<N>(),
        c.describes_quotients::<N>(),
        c.counts::<N>(),
        is_voxel_size(c, config.voxel_size_m),
        points.len() <= u32::MAX,
        forall|i: int|
            0 <= i < points.len() ==> c.is_factor((#[trigger] points[i]).x) && c.is_factor(
                points[i].y,
            ),
        points.len() * (c.side + c.e) <= c.limit,
    ensures
        ({
            let inv = quotient::<N>(F64 { bits: ONE }, config.voxel_size_m);
            let r = subsampled::<N>(points, config);
            &&& near(
                inv.units() * config.voxel_size_m.units(),
                unit() * unit(),
                c.e * config.voxel_size_m.units(),
            )
            &&& r.len() <= points.len()
            &&& forall|k: int|
                0 <= k < r.len() ==> is_mean_of_some_cell::<N>(c, points, inv, #[trigger] r[k])
            &&& forall|i: int|
                0 <= i < points.len() && (#[trigger] voxel_cell::<N>(points[i], inv)) is Some
                    ==> exists|k: int|
                    0 <= k < r.len() && is_mean_of_cell::<N>(
                        c,
                        points,
                        inv,
                        voxel_cell::<N>(points[i], inv)->0,
                        #[trigger] r[k],
                    )
        }),
{
    let inv = quotient::<N>(F64 { bits: ONE }, config.voxel_size_m);
    let r = subsampled::<N>(points, config);
    let vs = voxels::<N>(points, inv, points.len());
    lemma_inverse::<N>(c, config.voxel_size_m);
    law_one_voxel_per_cell::<N>(points, inv, points.len());
    assert forall|k: int| 0 <= k < r.len() implies is_mean_of_some_cell::<N>(
        c,
        points,
        inv,
        #[trigger] r[k],
    ) by {
        law_centroid_is_the_mean::<N>(c, points, inv, k);
        law_voxel_holds_its_points::<N>(c, points, inv, points.len(), k);
        let cell = vs[k].cell;
        assert(is_mean_of_cell::<N>(c, points, inv, cell, r[k]));
    }
    assert forall|i: int|
        0 <= i < points.len() && (#[trigger] voxel_cell::<N>(
            points[i],
            inv,
        )) is Some implies exists|k: int|
        0 <= k < r.len() && is_mean_of_cell::<N>(
            c,
            points,
            inv,
            voxel_cell::<N>(points[i], inv)->0,
            #[trigger] r[k],
        ) by {
        let cell = voxel_cell::<N>(points[i], inv)->0;
        assert(has_cell(vs, cell));
        let k = slot_of(vs, cell);
        law_centroid_is_the_mean::<N>(c, points, inv, k);
        law_voxel_holds_its_points::<N>(c, points, inv, points.len(), k);
        assert(is_mean_of_cell::<N>(c, points, inv, cell, r[k]));
    }
}

/// Two coordinates whose floors agree.
proof fn lemma_one_cell_apart<N: Numerics>(c: Accuracy, a: F64, b: F64, inv: F64)
    requires
        c.wf(),
        c.describes::<N>(),
        c.is_factor(a),
        c.is_factor(b),
        c.is_factor(inv),
        inv.units() > 0,
        floored(product::<N>(a, inv)) is Some,
        floored(product::<N>(a, inv)) == floored(product::<N>(b, inv)),
    ensures
        size(a.units() - b.units()) * inv.units() < unit() * (unit() + 2 * c.e),
{
    lemma_units_of_constants();
    lemma_product_admitted::<N>(c, a, inv);
    lemma_product_admitted::<N>(c, b, inv);
    let (u, i, e) = (unit(), inv.units(), c.e);
    let (p, q) = (product::<N>(a, inv).units(), product::<N>(b, inv).units());
    lemma_floor_is_exact(product::<N>(a, inv));
    lemma_floor_is_exact(product::<N>(b, inv));
    assert(size(p - q) < u);
    let d = a.units() - b.units();
    assert(d * i == a.units() * i - b.units() * i) by (nonlinear_arith)
        requires
            d == a.units() - b.units(),
    ;
    assert(u * (p - q) == u * p - u * q) by (nonlinear_arith);
    assert(-(u * u) < u * (p - q) && u * (p - q) < u * u) by (nonlinear_arith)
        requires
            u > 0,
            -u < p - q,
            p - q < u,
    ;
    assert(u * (u + 2 * e) == u * u + 2 * (u * e)) by (nonlinear_arith);
    assert((-d) * i == -(d * i)) by (nonlinear_arith);
}

// ---- Configuration ----

/// A configuration is accepted exactly if its lengths are finite, the least range is not
/// negative and less than the greatest, the voxel size and the outlier radius are
/// positive, and some points are let in.
pub proof fn law_preprocessing_is_accepted_if_sound(config: PreprocessConfig)
    ensures
        config.fault() is None <==> {
            &&& config.min_range_m.is_finite() && config.max_range_m.is_finite()
            &&& config.voxel_size_m.is_finite() && config.outlier_radius_m.is_finite()
            &&& 0 <= config.min_range_m.units() < config.max_range_m.units()
            &&& config.voxel_size_m.units() > 0
            &&& config.outlier_radius_m.units() > 0
            &&& config.max_input_points > 0
        },
{
    lemma_units_of_constants();
    let zero = F64 { bits: 0 };
    if config.min_range_m.is_finite() && config.max_range_m.is_finite() {
        law_order_is_value_order(config.min_range_m, zero);
        law_order_is_value_order(config.max_range_m, config.min_range_m);
    }
    if config.voxel_size_m.is_finite() {
        law_order_is_value_order(config.voxel_size_m, zero);
    }
    if config.outlier_radius_m.is_finite() {
        law_order_is_value_order(config.outlier_radius_m, zero);
    }
}

/// The three stages run in order: what comes out are the means of the voxels of those
/// points that are in range and not lonely among the points in range.
pub proof fn law_stages_run_in_order<N: Numerics>(
    c: Accuracy,
    points: Seq<Point2>,
    config: PreprocessConfig,
)
    requires
        c.wf(),
        c.describes::<N>(),
        c.describes_quotients::<N>(),
        c.counts::<N>(),
        is_voxel_size(c, config.voxel_size_m),
        ({
            let left = kept::<N>(gated::<N>(points, config), config);
            &&& left.len() <= u32::MAX
            &&& left.len() * (c.side + c.e) <= c.limit
            &&& forall|i: int|
                0 <= i < left.len() ==> c.is_factor((#[trigger] left[i]).x) && c.is_factor(
                    left[i].y,
                )
        }),
    ensures
        ({
            let left = kept::<N>(gated::<N>(points, config), config);
            let inv = quotient::<N>(F64 { bits: ONE }, config.voxel_size_m);
            let r = preprocessed::<N>(points, config);
            &&& r.len() <= left.len()
            &&& forall|k: int|
                0 <= k < r.len() ==> is_mean_of_some_cell::<N>(c, left, inv, #[trigger] r[k])
        }),
{
    law_subsampling_averages_voxels::<N>(c, kept::<N>(gated::<N>(points, config), config), config);
}

} // verus!
