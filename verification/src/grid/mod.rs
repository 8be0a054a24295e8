//! Log-odds occupancy grid with Bresenham ray casting.
//!
//! The grid is fixed-size with a configurable origin and extent. Cells store
//! log-odds occupancy in single precision. All world coordinates are metres.

pub mod bresenham;
pub mod cellmath;
pub mod image;
pub mod laws;

use vstd::prelude::*;

use crate::error::{Reason, SlamError};
use crate::float::{F32, F64};
use crate::grid::bresenham::{
    law_line_excludes_to, law_line_visits_each_cell_once, lemma_visited_range, line, line_len,
    traceable, Ray,
};
use crate::grid::cellmath::{
    cell_in_bounds, cell_of, clip_segment_to_aabb, clipped, inside, world_to_cell,
};
use crate::numerics::{
    deterministic, difference, difference32, exp32, exp_of32, float_of, from_u32, ln32, ln_of32,
    minus, minus32, over32, plus, plus32, product, quotient32, sum, sum32, times, Numerics,
};
use crate::pose::{Point2, Pose2};
use crate::scan::ScanCloud;

verus! {

/// 1.
pub const ONE32: u32 = 0x3f80_0000;

/// 10^-6, the lowest occupancy threshold told apart from 0.
pub const LEAST_THRESHOLD: u32 = 0x3586_37bd;

/// 1 - 10^-6, the highest occupancy threshold told apart from 1.
pub const GREATEST_THRESHOLD: u32 = 0x3f7f_ffef;

/// 10^-9, the part of a cell by which the clip box is smaller than the grid.
pub const MARGIN: u64 = 0x3e11_2e0b_e826_d695;

/// 0.5.
pub const HALF: u64 = 0x3fe0_0000_0000_0000;

/// Tunables for [`OccupancyGrid`]. Distances in metres; `l_*` fields are
/// log-odds increments and bounds.
///
/// Log-odds defaults follow the inverse sensor model in Thrun, Burgard & Fox,
/// *Probabilistic Robotics* ch. 9: `p_hit = 0.7`, `p_miss = 0.4`, prior `0.5`
/// (log-odds `0`). The asymmetric clamps mean a wall saturates after about 5
/// hits and fully clears after about 9 misses.
#[derive(Debug, Clone, Copy, PartialEq, Eq, Structural)]
pub struct GridConfig {
    /// Cell side length, metres per cell. Default `0.05`.
    pub resolution_m: F64,
    /// Grid width, cells. Default `600` (30 m at default resolution).
    pub width_cells: usize,
    /// Grid height, cells. Default `600`.
    pub height_cells: usize,
    /// World coordinates (metres) of the outer corner of cell `(0, 0)`.
    /// Default `(-15, -15)`, centring the default grid on the sensor.
    pub origin: Point2,
    /// Log-odds added to a cell on a *hit* (beam endpoint). Must be `> 0`.
    /// Default `0.85`.
    pub l_hit: F32,
    /// Log-odds added to a cell on a *miss* (beam passes through). Must be
    /// `< 0`. Default `-0.4`.
    pub l_miss: F32,
    /// Lower clamp on cell log-odds. Must be `< 0`. Default `-2.0`.
    pub l_min: F32,
    /// Upper clamp on cell log-odds. Must be `> 0`. Default `3.5`.
    pub l_max: F32,
    /// Maximum total cell count (`width × height`) accepted at construction.
    /// Default `16_777_216`.
    pub max_cells: usize,
}

impl Default for GridConfig {
    fn default() -> (r: GridConfig)
        ensures
            r == (GridConfig {
                resolution_m: F64 { bits: 0x3fa9_9999_9999_999a },
                width_cells: 600,
                height_cells: 600,
                origin: Point2 {
                    x: F64 { bits: 0xc02e_0000_0000_0000 },
                    y: F64 { bits: 0xc02e_0000_0000_0000 },
                },
                l_hit: F32 { bits: 0x3f59_999a },
                l_miss: F32 { bits: 0xbecc_cccd },
                l_min: F32 { bits: 0xc000_0000 },
                l_max: F32 { bits: 0x4060_0000 },
                max_cells: 16_777_216,
            }),
    {
        GridConfig {
            resolution_m: F64 { bits: 0x3fa9_9999_9999_999a },
            width_cells: 600,
            height_cells: 600,
            origin: Point2 {
                x: F64 { bits: 0xc02e_0000_0000_0000 },
                y: F64 { bits: 0xc02e_0000_0000_0000 },
            },
            l_hit: F32 { bits: 0x3f59_999a },
            l_miss: F32 { bits: 0xbecc_cccd },
            l_min: F32 { bits: 0xc000_0000 },
            l_max: F32 { bits: 0x4060_0000 },
            max_cells: 16_777_216,
        }
    }
}

/// `true` if `v` is finite and on the given side of zero.
#[verifier::allow_in_spec]
pub fn has_sign(v: F32, positive: bool) -> bool
    returns
        v.is_finite() && (if positive {
            (F32 { bits: 0 }).lt(v)
        } else {
            v.lt(F32 { bits: 0 })
        }),
{
    let zero = F32 { bits: 0 };
    v.is_finite() && (if positive {
        zero.lt(v)
    } else {
        v.lt(zero)
    })
}

/// The error for a log-odds field on the wrong side of zero.
pub open spec fn wrong_sign(field: &'static str, value: F32, positive: bool) -> SlamError {
    SlamError::InvalidConfig { field, reason: Reason::WrongSign { positive, value } }
}

impl GridConfig {
    /// What is wrong with the configuration, if anything.
    pub open spec fn fault(self) -> Option<SlamError> {
        let cells = self.width_cells * self.height_cells;
        let sides = "width_cells/height_cells";
        if !(self.resolution_m.is_finite() && (F64 { bits: 0 }).lt(self.resolution_m)) {
            Some(
                SlamError::InvalidConfig {
                    field: "resolution_m",
                    reason: Reason::NotFinitePositive(self.resolution_m),
                },
            )
        } else if !self.origin.is_finite() {
            Some(
                SlamError::InvalidConfig {
                    field: "origin",
                    reason: Reason::PointNotFinite(self.origin.x, self.origin.y),
                },
            )
        } else if self.width_cells == 0 || self.height_cells == 0 {
            Some(SlamError::InvalidConfig { field: sides, reason: Reason::Zero })
        } else if cells > usize::MAX {
            Some(SlamError::GridTooLarge { cells: usize::MAX, limit: self.max_cells })
        } else if cells > self.max_cells {
            Some(SlamError::GridTooLarge { cells: cells as usize, limit: self.max_cells })
        } else if self.width_cells > u32::MAX || self.height_cells > u32::MAX {
            Some(SlamError::InvalidConfig { field: sides, reason: Reason::BeyondU32 })
        } else if !has_sign(self.l_hit, true) {
            Some(wrong_sign("l_hit", self.l_hit, true))
        } else if !has_sign(self.l_miss, false) {
            Some(wrong_sign("l_miss", self.l_miss, false))
        } else if !has_sign(self.l_min, false) {
            Some(wrong_sign("l_min", self.l_min, false))
        } else if !has_sign(self.l_max, true) {
            Some(wrong_sign("l_max", self.l_max, true))
        } else {
            None
        }
    }

    /// Validate the configuration.
    ///
    /// [`SlamError::GridTooLarge`] if `width_cells × height_cells` overflows or
    /// exceeds [`Self::max_cells`]; [`SlamError::InvalidConfig`] for any other
    /// invalid field (values that are not finite, empty sides, log-odds
    /// increments or clamps with the wrong sign).
    pub fn validate(&self) -> (r: Result<(), SlamError>)
        ensures
            r == (match self.fault() {
                Some(e) => Err::<(), SlamError>(e),
                None => Ok(()),
            }),
    {
        let zero = F64 { bits: 0 };
        if !(self.resolution_m.is_finite() && zero.lt(self.resolution_m)) {
            return Err(
                SlamError::InvalidConfig {
                    field: "resolution_m",
                    reason: Reason::NotFinitePositive(self.resolution_m),
                },
            );
        }
        if !self.origin.is_finite() {
            return Err(
                SlamError::InvalidConfig {
                    field: "origin",
                    reason: Reason::PointNotFinite(self.origin.x, self.origin.y),
                },
            );
        }
        if self.width_cells == 0 || self.height_cells == 0 {
            return Err(
                SlamError::InvalidConfig {
                    field: "width_cells/height_cells",
                    reason: Reason::Zero,
                },
            );
        }
        match self.width_cells.checked_mul(self.height_cells) {
            None => {
                return Err(
                    SlamError::GridTooLarge { cells: usize::MAX, limit: self.max_cells },
                );
            },
            Some(cells) => {
                if cells > self.max_cells {
                    return Err(SlamError::GridTooLarge { cells, limit: self.max_cells });
                }
            },
        }
        if self.width_cells as u64 > u32::MAX as u64 || self.height_cells as u64 > u32::MAX as u64 {
            return Err(
                SlamError::InvalidConfig {
                    field: "width_cells/height_cells",
                    reason: Reason::BeyondU32,
                },
            );
        }
        match signed("l_hit", self.l_hit, true) {
            Err(e) => return Err(e),
            Ok(()) => {},
        }
        match signed("l_miss", self.l_miss, false) {
            Err(e) => return Err(e),
            Ok(()) => {},
        }
        match signed("l_min", self.l_min, false) {
            Err(e) => return Err(e),
            Ok(()) => {},
        }
        signed("l_max", self.l_max, true)
    }

    /// World coordinates of the far outer corner of the grid, pulled a sliver
    /// of a cell inside so that points clipped to the edge floor to the last
    /// cell instead of one past it.
    pub open spec fn far_corner<N: Numerics>(self) -> Point2 {
        let margin = product::<N>(self.resolution_m, F64 { bits: MARGIN });
        let width = product::<N>(self.resolution_m, float_of::<N>(self.width_cells as u32));
        let height = product::<N>(self.resolution_m, float_of::<N>(self.height_cells as u32));
        Point2 {
            x: difference::<N>(sum::<N>(self.origin.x, width), margin),
            y: difference::<N>(sum::<N>(self.origin.y, height), margin),
        }
    }
}

/// Check the side of zero of a log-odds field.
fn signed(field: &'static str, value: F32, positive: bool) -> (r: Result<(), SlamError>)
    ensures
        r == (if has_sign(value, positive) {
            Ok::<(), SlamError>(())
        } else {
            Err(wrong_sign(field, value, positive))
        }),
{
    if has_sign(value, positive) {
        Ok(())
    } else {
        Err(SlamError::InvalidConfig { field, reason: Reason::WrongSign { positive, value } })
    }
}

// ---- The effect of beams on the cells ----

/// Row-major index of a cell.
pub open spec fn index_of(cell: (i64, i64), width: usize) -> int {
    cell.1 * width + cell.0
}

/// The value of a cell after an update to `total`: clamped, or its old value if
/// `total` is a NaN.
#[verifier::allow_in_spec]
pub fn nudged(old_value: F32, total: F32, config: GridConfig) -> F32
    returns
        (if total.is_nan() {
            old_value
        } else if total.lt(config.l_min) {
            config.l_min
        } else if config.l_max.lt(total) {
            config.l_max
        } else {
            total
        }),
{
    if total.is_nan() {
        old_value
    } else if total.lt(config.l_min) {
        config.l_min
    } else if config.l_max.lt(total) {
        config.l_max
    } else {
        total
    }
}

/// `cells` with `delta` added to one cell, clamped; unchanged if the cell lies
/// outside the grid.
pub open spec fn applied<N: Numerics>(
    cells: Seq<F32>,
    config: GridConfig,
    cell: (i64, i64),
    delta: F32,
) -> Seq<F32> {
    if inside(cell, config.width_cells, config.height_cells) {
        let i = index_of(cell, config.width_cells);
        cells.update(i, nudged(cells[i], sum32::<N>(cells[i], delta), config))
    } else {
        cells
    }
}

/// `cells` with a miss on the first `n` cells of `path`, one after the other.
pub open spec fn missed<N: Numerics>(
    cells: Seq<F32>,
    config: GridConfig,
    path: Seq<(i64, i64)>,
    n: nat,
) -> Seq<F32>
    decreases n,
{
    if n == 0 {
        cells
    } else {
        applied::<N>(
            missed::<N>(cells, config, path, (n - 1) as nat),
            config,
            path[n - 1],
            config.l_miss,
        )
    }
}

/// `cells` with a miss on every cell from `start` to before `end`, then on `end`
/// a hit, or another miss if the beam was cut off there: its obstacle was never
/// observed.
pub open spec fn swept<N: Numerics>(
    cells: Seq<F32>,
    config: GridConfig,
    start: (i64, i64),
    end: (i64, i64),
    cut: bool,
) -> Seq<F32> {
    let path = line(start, end);
    let delta = if cut {
        config.l_miss
    } else {
        config.l_hit
    };
    applied::<N>(missed::<N>(cells, config, path, path.len()), config, end, delta)
}

/// `cells` after one beam from `sensor` to `target`: swept between the cells of
/// its part within the grid, untouched if there is none.
pub open spec fn with_beam<N: Numerics>(
    cells: Seq<F32>,
    config: GridConfig,
    far: Point2,
    sensor: Point2,
    target: Point2,
) -> Seq<F32> {
    match clipped::<N>(sensor, target, config.origin, far) {
        None => cells,
        Some(seg) => match (
            cell_of::<N>(seg.start, config.origin, config.resolution_m),
            cell_of::<N>(seg.end, config.origin, config.resolution_m),
        ) {
            (Some(start), Some(end)) => swept::<N>(cells, config, start, end, seg.end_clipped),
            _ => cells,
        },
    }
}

/// `cells` after the first `n` beams of a scan taken at `pose`; points that are
/// not finite are skipped.
pub open spec fn integrated<N: Numerics>(
    cells: Seq<F32>,
    config: GridConfig,
    far: Point2,
    pose: Pose2,
    points: Seq<Point2>,
    n: nat,
) -> Seq<F32>
    decreases n,
{
    if n == 0 {
        cells
    } else {
        let before = integrated::<N>(cells, config, far, pose, points, (n - 1) as nat);
        if points[n - 1].is_finite() {
            with_beam::<N>(
                before,
                config,
                far,
                Point2 { x: pose.x, y: pose.y },
                pose.transformed::<N>(points[n - 1]),
            )
        } else {
            before
        }
    }
}

/// Every cell lies between the clamps.
pub open spec fn clamped_cells(cells: Seq<F32>, config: GridConfig) -> bool {
    forall|i: int|
        0 <= i < cells.len() ==> config.l_min.le(#[trigger] cells[i]) && cells[i].le(config.l_max)
}

/// An in-bounds index lies in the grid.
pub proof fn lemma_index_in_grid(x: int, y: int, width: int, height: int)
    requires
        0 <= x < width,
        0 <= y < height,
    ensures
        0 <= y * width + x < width * height,
        (y * width + x) / width == y,
        (y * width + x) % width == x,
{
    assert(0 <= y * width) by (nonlinear_arith)
        requires
            0 <= y,
            0 < width,
    ;
    assert(y * width + x < width * height) by (nonlinear_arith)
        requires
            0 <= x < width,
            y + 1 <= height,
    ;
    vstd::arithmetic::div_mod::lemma_fundamental_div_mod_converse(y * width + x, width, y, x);
}

/// An index of the grid splits into a row and a column.
pub proof fn lemma_index_splits(i: int, width: int, height: int)
    requires
        0 <= i < width * height,
        0 < width,
    ensures
        0 <= i % width < width,
        0 <= i / width < height,
        i == (i / width) * width + i % width,
{
    vstd::arithmetic::div_mod::lemma_fundamental_div_mod(i, width);
    vstd::arithmetic::div_mod::lemma_mod_bound(i, width);
    vstd::arithmetic::div_mod::lemma_div_pos_is_pos(i, width);
    assert(i / width < height) by (nonlinear_arith)
        requires
            i < width * height,
            i == width * (i / width) + i % width,
            0 <= i % width,
            0 < width,
    ;
    assert(width * (i / width) == (i / width) * width) by (nonlinear_arith);
}

/// Add `delta` to a cell, clamped; cells outside the grid are ignored.
fn apply<N: Numerics>(cells: &mut Vec<F32>, config: &GridConfig, cell: (i64, i64), delta: F32)
    requires
        config.fault() is None,
        old(cells)@.len() == config.width_cells * config.height_cells,
    ensures
        final(cells)@.len() == old(cells)@.len(),
        clamped_cells(old(cells)@, *config) ==> clamped_cells(final(cells)@, *config),
        forall|i: int|
            0 <= i < old(cells)@.len() && !(inside(cell, config.width_cells, config.height_cells)
                && i == index_of(cell, config.width_cells)) ==> #[trigger] final(cells)@[i] == old(cells)@[i],
        deterministic::<N>() ==> final(cells)@ == applied::<N>(old(cells)@, *config, cell, delta),
{
    match cell_in_bounds(cell, config.width_cells, config.height_cells) {
        Some((cx, cy)) => {
            proof {
                lemma_index_in_grid(
                    cx as int,
                    cy as int,
                    config.width_cells as int,
                    config.height_cells as int,
                );
                assert(cy * config.width_cells <= cy * config.width_cells + cx);
            }
            let i: usize = cy * config.width_cells + cx;
            let updated = nudged(cells[i], plus32::<N>(cells[i], delta), *config);
            cells.set(i, updated);
        },
        None => {},
    }
}

/// Sweep one beam over the cells from `start` to `end`: misses up to `end`, and
/// there a hit, or a miss if the beam is `cut` off.
pub fn sweep<N: Numerics>(
    cells: &mut Vec<F32>,
    config: &GridConfig,
    start: (i64, i64),
    end: (i64, i64),
    cut: bool,
)
    requires
        config.fault() is None,
        old(cells)@.len() == config.width_cells * config.height_cells,
        traceable(start, end),
    ensures
        final(cells)@.len() == old(cells)@.len(),
        clamped_cells(old(cells)@, *config) ==> clamped_cells(final(cells)@, *config),
        deterministic::<N>() ==> final(cells)@ == swept::<N>(
            old(cells)@,
            *config,
            start,
            end,
            cut,
        ),
{
    let mut ray = Ray::new(start, end);
    loop
        invariant
            ray.wf(),
            ray.start() == start,
            ray.end() == end,
            config.fault() is None,
            cells@.len() == old(cells)@.len(),
            cells@.len() == config.width_cells * config.height_cells,
            clamped_cells(old(cells)@, *config) ==> clamped_cells(cells@, *config),
            ray.visited() >= 0,
            deterministic::<N>() ==> cells@ == missed::<N>(
                old(cells)@,
                *config,
                line(start, end),
                ray.visited() as nat,
            ),
        ensures
            ray.visited() == line_len(start, end),
        decreases line_len(start, end) - ray.visited(),
    {
        proof {
            lemma_visited_range(&ray);
        }
        match ray.next() {
            Some(cell) => {
                proof {
                    lemma_visited_range(&ray);
                    assert(cell == line(start, end)[ray.visited() - 1]);
                }
                apply::<N>(cells, config, cell, config.l_miss);
            },
            None => {
                break ;
            },
        }
    }
    if cut {
        apply::<N>(cells, config, end, config.l_miss);
    } else {
        apply::<N>(cells, config, end, config.l_hit);
    }
}

/// Log-odds occupancy grid.
///
/// Cells start at the prior (log-odds `0`, probability `0.5` — *unknown*).
/// [`OccupancyGrid::integrate_scan`] ray-casts each beam from the sensor
/// origin: traversed cells get a miss update, the endpoint a hit update, all
/// clamped to `[l_min, l_max]`.
#[derive(Debug)]
pub struct OccupancyGrid {
    config: GridConfig,
    /// Flat, row-major (`index = y * width + x`); row 0 is at the origin
    /// (minimum y).
    log_odds: Vec<F32>,
    /// The far corner of the clip box.
    max_corner: Point2,
}

impl OccupancyGrid {
    /// The configuration.
    pub closed spec fn spec_config(&self) -> GridConfig {
        self.config
    }

    /// The log-odds of all cells, row-major.
    pub closed spec fn spec_cells(&self) -> Seq<F32> {
        self.log_odds@
    }

    /// The far corner of the clip box.
    pub closed spec fn spec_far(&self) -> Point2 {
        self.max_corner
    }

    /// A valid configuration, one value per cell, each within the clamps.
    pub open spec fn wf(&self) -> bool {
        &&& self.spec_config().fault() is None
        &&& self.spec_cells().len() == self.spec_config().width_cells
            * self.spec_config().height_cells
        &&& clamped_cells(self.spec_cells(), self.spec_config())
    }

    /// Create a grid with all cells at the prior (unknown, probability 0.5).
    ///
    /// Fails as [`GridConfig::validate`] does.
    pub fn new<N: Numerics>(config: GridConfig) -> (r: Result<OccupancyGrid, SlamError>)
        ensures
            match config.fault() {
                Some(e) => r == Err::<OccupancyGrid, SlamError>(e),
                None => r matches Ok(grid) && grid.wf() && grid.spec_config() == config
                    && grid.spec_cells() == Seq::new(
                    (config.width_cells * config.height_cells) as nat,
                    |i: int| F32 { bits: 0 },
                ) && (deterministic::<N>() ==> grid.spec_far() == config.far_corner::<N>()),
            },
    {
        match config.validate() {
            Err(e) => return Err(e),
            Ok(()) => {},
        }
        let width = times::<N>(config.resolution_m, from_u32::<N>(config.width_cells as u32));
        let height = times::<N>(config.resolution_m, from_u32::<N>(config.height_cells as u32));
        let margin = times::<N>(config.resolution_m, F64 { bits: MARGIN });
        let max_corner = Point2::new(
            minus::<N>(plus::<N>(config.origin.x, width), margin),
            minus::<N>(plus::<N>(config.origin.y, height), margin),
        );
        let count: usize = config.width_cells * config.height_cells;
        let log_odds: Vec<F32> = vec![F32 { bits: 0 }; count];
        proof {
            assert(log_odds@ =~= Seq::new(count as nat, |i: int| F32 { bits: 0 }));
        }
        Ok(OccupancyGrid { config, log_odds, max_corner })
    }

    /// Integrate a scan taken at `pose` (world frame, metres and radians).
    ///
    /// Each beam runs from the sensor position to the scan point transformed by
    /// `pose`. Beams are clipped to the grid: a beam fully outside is skipped,
    /// and a beam whose endpoint lies off-map contributes misses along its
    /// in-bounds part but no hit. Never fails; degenerate points are skipped.
    pub fn integrate_scan<N: Numerics>(&mut self, pose: &Pose2, cloud: &ScanCloud)
        requires
            old(self).wf(),
        ensures
            final(self).wf(),
            final(self).spec_config() == old(self).spec_config(),
            final(self).spec_far() == old(self).spec_far(),
            deterministic::<N>() ==> final(self).spec_cells() == integrated::<N>(
                old(self).spec_cells(),
                old(self).spec_config(),
                old(self).spec_far(),
                *pose,
                cloud.points@,
                cloud.points@.len(),
            ),
    {
        let sensor = Point2::new(pose.x, pose.y);
        for i in 0..cloud.points.len()
            invariant
                self.wf(),
                self.config == old(self).config,
                self.max_corner == old(self).max_corner,
                sensor == (Point2 { x: pose.x, y: pose.y }),
                deterministic::<N>() ==> self.log_odds@ == integrated::<N>(
                    old(self).log_odds@,
                    self.config,
                    self.max_corner,
                    *pose,
                    cloud.points@,
                    i as nat,
                ),
        {
            if cloud.points[i].is_finite() {
                self.integrate_beam::<N>(sensor, pose.transform_point::<N>(cloud.points[i]));
            }
        }
    }

    /// Integrate one beam.
    fn integrate_beam<N: Numerics>(&mut self, sensor: Point2, target: Point2)
        requires
            old(self).wf(),
        ensures
            final(self).wf(),
            final(self).spec_config() == old(self).spec_config(),
            final(self).spec_far() == old(self).spec_far(),
            deterministic::<N>() ==> final(self).spec_cells() == with_beam::<N>(
                old(self).spec_cells(),
                old(self).spec_config(),
                old(self).spec_far(),
                sensor,
                target,
            ),
    {
        let config = self.config;
        match clip_segment_to_aabb::<N>(sensor, target, config.origin, self.max_corner) {
            Some(seg) => match world_to_cell::<N>(seg.start, config.origin, config.resolution_m) {
                Some(start) => match world_to_cell::<N>(
                    seg.end,
                    config.origin,
                    config.resolution_m,
                ) {
                    Some(end) => {
                        sweep::<N>(&mut self.log_odds, &config, start, end, seg.end_clipped);
                    },
                    None => {},
                },
                None => {},
            },
            None => {},
        }
    }

    /// The log-odds that [`OccupancyGrid::log_odds_at`] reads.
    pub open spec fn reading<N: Numerics>(&self, p: Point2) -> Option<F32> {
        let config = self.spec_config();
        match cell_of::<N>(p, config.origin, config.resolution_m) {
            Some(cell) => if inside(cell, config.width_cells, config.height_cells) {
                Some(self.spec_cells()[index_of(cell, config.width_cells)])
            } else {
                None
            },
            None => None,
        }
    }

    /// Occupancy probability (`0..1`) at world point `p` (metres); `None`
    /// outside the grid. Unknown cells read `0.5`.
    pub fn probability_at<N: Numerics>(&self, p: Point2) -> (r: Option<F32>)
        requires
            self.wf(),
        ensures
            deterministic::<N>() ==> r == (match self.reading::<N>(p) {
                Some(l) => Some(probability::<N>(l)),
                None => None,
            }),
    {
        match self.log_odds_at::<N>(p) {
            Some(l) => Some(prob_from_log_odds::<N>(l)),
            None => None,
        }
    }

    /// Raw log-odds at world point `p` (metres); `None` outside the grid.
    pub fn log_odds_at<N: Numerics>(&self, p: Point2) -> (r: Option<F32>)
        requires
            self.wf(),
        ensures
            deterministic::<N>() ==> r == self.reading::<N>(p),
            r matches Some(l) ==> self.spec_cells().contains(l),
    {
        match world_to_cell::<N>(p, self.config.origin, self.config.resolution_m) {
            Some(cell) => self.log_odds_in(cell),
            None => None,
        }
    }

    /// Raw log-odds of a cell; `None` outside the grid.
    pub fn log_odds_in(&self, cell: (i64, i64)) -> (r: Option<F32>)
        requires
            self.wf(),
        ensures
            r == (if inside(
                cell,
                self.spec_config().width_cells,
                self.spec_config().height_cells,
            ) {
                Some(self.spec_cells()[index_of(cell, self.spec_config().width_cells)])
            } else {
                None
            }),
            r matches Some(l) ==> self.spec_cells().contains(l),
    {
        match cell_in_bounds(cell, self.config.width_cells, self.config.height_cells) {
            Some((cx, cy)) => {
                proof {
                    lemma_index_in_grid(
                        cx as int,
                        cy as int,
                        self.config.width_cells as int,
                        self.config.height_cells as int,
                    );
                    assert(cy * self.config.width_cells <= cy * self.config.width_cells + cx);
                }
                Some(self.log_odds[cy * self.config.width_cells + cx])
            },
            None => None,
        }
    }

    /// The configuration.
    pub fn config(&self) -> (r: &GridConfig)
        ensures
            *r == self.spec_config(),
    {
        &self.config
    }

    /// Cell side length, metres.
    pub fn resolution_m(&self) -> (r: F64)
        ensures
            r == self.spec_config().resolution_m,
    {
        self.config.resolution_m
    }

    /// Grid width, cells.
    pub fn width(&self) -> (r: usize)
        ensures
            r == self.spec_config().width_cells,
    {
        self.config.width_cells
    }

    /// Grid height, cells.
    pub fn height(&self) -> (r: usize)
        ensures
            r == self.spec_config().height_cells,
    {
        self.config.height_cells
    }

    /// World coordinates (metres) of the outer corner of cell `(0, 0)`.
    pub fn origin(&self) -> (r: Point2)
        ensures
            r == self.spec_config().origin,
    {
        self.config.origin
    }

    /// Raw log-odds cells, flat row-major (`index = y * width + x`), row 0 at
    /// the origin (minimum y).
    pub fn cells(&self) -> (r: &Vec<F32>)
        ensures
            r@ == self.spec_cells(),
    {
        &self.log_odds
    }

    /// World-frame centres (metres) of every cell whose occupancy probability
    /// exceeds `threshold` (`0..1`), in row-major order.
    pub fn occupied_cell_centres<N: Numerics>(&self, threshold: F32) -> (r: Vec<Point2>)
        requires
            self.wf(),
        ensures
            r@.len() <= self.spec_cells().len(),
            deterministic::<N>() ==> r@ == centres::<N>(
                self.spec_cells(),
                self.spec_config(),
                least_log_odds::<N>(threshold),
                self.spec_cells().len(),
            ),
    {
        let t = threshold.clamp(F32 { bits: LEAST_THRESHOLD }, F32 { bits: GREATEST_THRESHOLD });
        let least = ln32::<N>(over32::<N>(t, minus32::<N>(F32 { bits: ONE32 }, t)));
        let mut found: Vec<Point2> = Vec::new();
        for i in 0..self.log_odds.len()
            invariant
                self.wf(),
                found@.len() <= i,
                deterministic::<N>() ==> found@ == centres::<N>(
                    self.log_odds@,
                    self.config,
                    least,
                    i as nat,
                ),
        {
            if least.lt(self.log_odds[i]) {
                proof {
                    lemma_index_splits(
                        i as int,
                        self.config.width_cells as int,
                        self.config.height_cells as int,
                    );
                }
                let (cx, cy) = (i % self.config.width_cells, i / self.config.width_cells);
                found.push(self.cell_centre::<N>(cx as u32, cy as u32));
            }
        }
        found
    }

    /// World coordinates of the centre of a cell.
    fn cell_centre<N: Numerics>(&self, cx: u32, cy: u32) -> (r: Point2)
        ensures
            deterministic::<N>() ==> r == centre::<N>(self.spec_config(), cx, cy),
    {
        let res = self.config.resolution_m;
        let half = F64 { bits: HALF };
        Point2::new(
            plus::<N>(
                self.config.origin.x,
                times::<N>(plus::<N>(from_u32::<N>(cx), half), res),
            ),
            plus::<N>(
                self.config.origin.y,
                times::<N>(plus::<N>(from_u32::<N>(cy), half), res),
            ),
        )
    }
}

impl Clone for OccupancyGrid {
    fn clone(&self) -> (r: OccupancyGrid)
        ensures
            r.spec_config() == self.spec_config(),
            r.spec_cells() == self.spec_cells(),
            r.spec_far() == self.spec_far(),
    {
        let mut log_odds: Vec<F32> = Vec::new();
        for i in 0..self.log_odds.len()
            invariant
                log_odds@ == self.log_odds@.take(i as int),
        {
            log_odds.push(self.log_odds[i]);
            proof {
                assert(self.log_odds@.take(i + 1) =~= self.log_odds@.take(i as int).push(
                    self.log_odds@[i as int],
                ));
            }
        }
        proof {
            assert(self.log_odds@.take(self.log_odds@.len() as int) =~= self.log_odds@);
        }
        OccupancyGrid { config: self.config, log_odds, max_corner: self.max_corner }
    }
}

/// The log-odds that a cell must exceed for its probability to exceed
/// `threshold`.
pub open spec fn least_log_odds<N: Numerics>(threshold: F32) -> F32 {
    let t = threshold.clamped(F32 { bits: LEAST_THRESHOLD }, F32 { bits: GREATEST_THRESHOLD });
    ln_of32::<N>(quotient32::<N>(t, difference32::<N>(F32 { bits: ONE32 }, t)))
}

/// World coordinates of the centre of a cell.
pub open spec fn centre<N: Numerics>(config: GridConfig, cx: u32, cy: u32) -> Point2 {
    let half = F64 { bits: HALF };
    Point2 {
        x: sum::<N>(
            config.origin.x,
            product::<N>(sum::<N>(float_of::<N>(cx), half), config.resolution_m),
        ),
        y: sum::<N>(
            config.origin.y,
            product::<N>(sum::<N>(float_of::<N>(cy), half), config.resolution_m),
        ),
    }
}

/// The centres of those of the first `n` cells that exceed `least`.
pub open spec fn centres<N: Numerics>(
    cells: Seq<F32>,
    config: GridConfig,
    least: F32,
    n: nat,
) -> Seq<Point2>
    decreases n,
{
    if n == 0 {
        Seq::empty()
    } else {
        let i = n - 1;
        let before = centres::<N>(cells, config, least, i as nat);
        if least.lt(cells[i]) {
            before.push(
                centre::<N>(
                    config,
                    (i % config.width_cells as int) as u32,
                    (i / config.width_cells as int) as u32,
                ),
            )
        } else {
            before
        }
    }
}

/// `1 - 1 / (1 + eˡ)`.
pub open spec fn probability<N: Numerics>(l: F32) -> F32 {
    let one = F32 { bits: ONE32 };
    difference32::<N>(one, quotient32::<N>(one, sum32::<N>(one, exp_of32::<N>(l))))
}

/// Log-odds to probability: `p = 1 - 1 / (1 + eˡ)`.
pub fn prob_from_log_odds<N: Numerics>(l: F32) -> (r: F32)
    ensures
        deterministic::<N>() ==> r == probability::<N>(l),
{
    let one = F32 { bits: ONE32 };
    minus32::<N>(one, over32::<N>(one, plus32::<N>(one, exp32::<N>(l))))
}

/// Integration keeps every cell within the clamps.
pub proof fn law_integration_keeps_clamps<N: Numerics>(
    cells: Seq<F32>,
    config: GridConfig,
    far: Point2,
    pose: Pose2,
    points: Seq<Point2>,
    n: nat,
)
    requires
        config.fault() is None,
        cells.len() == config.width_cells * config.height_cells,
        clamped_cells(cells, config),
    ensures
        integrated::<N>(cells, config, far, pose, points, n).len() == cells.len(),
        clamped_cells(integrated::<N>(cells, config, far, pose, points, n), config),
    decreases n,
{
    if n > 0 {
        let before = integrated::<N>(cells, config, far, pose, points, (n - 1) as nat);
        law_integration_keeps_clamps::<N>(cells, config, far, pose, points, (n - 1) as nat);
        let sensor = Point2 { x: pose.x, y: pose.y };
        match clipped::<N>(sensor, pose.transformed::<N>(points[n - 1]), config.origin, far) {
            None => {},
            Some(seg) => match (
                cell_of::<N>(seg.start, config.origin, config.resolution_m),
                cell_of::<N>(seg.end, config.origin, config.resolution_m),
            ) {
                (Some(start), Some(end)) => {
                    let path = line(start, end);
                    lemma_misses_keep_clamps::<N>(before, config, path, path.len());
                    lemma_update_keeps_clamps::<N>(
                        missed::<N>(before, config, path, path.len()),
                        config,
                        end,
                        if seg.end_clipped {
                            config.l_miss
                        } else {
                            config.l_hit
                        },
                    );
                },
                _ => {},
            },
        }
    }
}

/// One update keeps every cell within the clamps.
proof fn lemma_update_keeps_clamps<N: Numerics>(
    cells: Seq<F32>,
    config: GridConfig,
    cell: (i64, i64),
    delta: F32,
)
    requires
        config.fault() is None,
        cells.len() == config.width_cells * config.height_cells,
        clamped_cells(cells, config),
    ensures
        applied::<N>(cells, config, cell, delta).len() == cells.len(),
        clamped_cells(applied::<N>(cells, config, cell, delta), config),
{
    if inside(cell, config.width_cells, config.height_cells) {
        lemma_index_in_grid(
            cell.0 as int,
            cell.1 as int,
            config.width_cells as int,
            config.height_cells as int,
        );
    }
}

/// Misses keep every cell within the clamps.
proof fn lemma_misses_keep_clamps<N: Numerics>(
    cells: Seq<F32>,
    config: GridConfig,
    path: Seq<(i64, i64)>,
    n: nat,
)
    requires
        config.fault() is None,
        cells.len() == config.width_cells * config.height_cells,
        clamped_cells(cells, config),
    ensures
        missed::<N>(cells, config, path, n).len() == cells.len(),
        clamped_cells(missed::<N>(cells, config, path, n), config),
    decreases n,
{
    if n > 0 {
        lemma_misses_keep_clamps::<N>(cells, config, path, (n - 1) as nat);
        lemma_update_keeps_clamps::<N>(
            missed::<N>(cells, config, path, (n - 1) as nat),
            config,
            path[n - 1],
            config.l_miss,
        );
    }
}

/// A beam changes only the cells on its line.
pub proof fn law_beam_changes_only_its_line<N: Numerics>(
    cells: Seq<F32>,
    config: GridConfig,
    start: (i64, i64),
    end: (i64, i64),
    cut: bool,
    cell: (i64, i64),
)
    requires
        config.fault() is None,
        cells.len() == config.width_cells * config.height_cells,
        inside(cell, config.width_cells, config.height_cells),
        cell != end,
        !line(start, end).contains(cell),
    ensures
        swept::<N>(cells, config, start, end, cut)[index_of(cell, config.width_cells)]
            == cells[index_of(cell, config.width_cells)],
{
    let path = line(start, end);
    lemma_misses_change_only_path::<N>(cells, config, path, path.len(), cell);
    lemma_indices_differ(cell, end, config);
}

/// A beam that is cut off gives misses only: its end is one more cell of its path.
pub proof fn law_cut_beam_gives_no_hit<N: Numerics>(
    cells: Seq<F32>,
    config: GridConfig,
    start: (i64, i64),
    end: (i64, i64),
)
    ensures
        swept::<N>(cells, config, start, end, true) == missed::<N>(
            cells,
            config,
            line(start, end).push(end),
            line(start, end).len() + 1,
        ),
{
    let path = line(start, end);
    lemma_misses_of_prefix::<N>(cells, config, path, path.push(end), path.len());
}

/// Cells behind the first `n` of a path do not matter to the first `n`.
proof fn lemma_misses_of_prefix<N: Numerics>(
    cells: Seq<F32>,
    config: GridConfig,
    a: Seq<(i64, i64)>,
    b: Seq<(i64, i64)>,
    n: nat,
)
    requires
        n <= a.len(),
        n <= b.len(),
        forall|i: int| 0 <= i < n ==> a[i] == b[i],
    ensures
        missed::<N>(cells, config, a, n) == missed::<N>(cells, config, b, n),
    decreases n,
{
    if n > 0 {
        lemma_misses_of_prefix::<N>(cells, config, a, b, (n - 1) as nat);
    }
}

/// Integrating a scan in two parts gives what integrating the whole gives.
pub proof fn law_integrating_parts_gives_the_whole<N: Numerics>(
    cells: Seq<F32>,
    config: GridConfig,
    far: Point2,
    pose: Pose2,
    p: Seq<Point2>,
    q: Seq<Point2>,
)
    ensures
        integrated::<N>(cells, config, far, pose, p + q, (p + q).len()) == integrated::<N>(
            integrated::<N>(cells, config, far, pose, p, p.len()),
            config,
            far,
            pose,
            q,
            q.len(),
        ),
{
    lemma_integrating_parts::<N>(cells, config, far, pose, p, q, q.len());
}

/// The first `n` beams of the second part come on top of the first part.
proof fn lemma_integrating_parts<N: Numerics>(
    cells: Seq<F32>,
    config: GridConfig,
    far: Point2,
    pose: Pose2,
    p: Seq<Point2>,
    q: Seq<Point2>,
    n: nat,
)
    requires
        n <= q.len(),
    ensures
        integrated::<N>(cells, config, far, pose, p + q, p.len() + n) == integrated::<N>(
            integrated::<N>(cells, config, far, pose, p, p.len()),
            config,
            far,
            pose,
            q,
            n,
        ),
    decreases n,
{
    if n == 0 {
        lemma_integration_of_prefix::<N>(cells, config, far, pose, p + q, p, p.len());
    } else {
        lemma_integrating_parts::<N>(cells, config, far, pose, p, q, (n - 1) as nat);
        assert((p + q)[p.len() + n - 1] == q[n - 1]);
    }
}

/// Points behind the first `n` do not matter to the first `n` beams.
proof fn lemma_integration_of_prefix<N: Numerics>(
    cells: Seq<F32>,
    config: GridConfig,
    far: Point2,
    pose: Pose2,
    a: Seq<Point2>,
    b: Seq<Point2>,
    n: nat,
)
    requires
        n <= a.len(),
        n <= b.len(),
        forall|i: int| 0 <= i < n ==> a[i] == b[i],
    ensures
        integrated::<N>(cells, config, far, pose, a, n) == integrated::<N>(
            cells,
            config,
            far,
            pose,
            b,
            n,
        ),
    decreases n,
{
    if n > 0 {
        lemma_integration_of_prefix::<N>(cells, config, far, pose, a, b, (n - 1) as nat);
    }
}

/// A scan changes no cell if each of its points is not finite or has a beam that
/// lies wholly outside the grid; an empty scan is one.
pub proof fn law_degenerate_scan_changes_nothing<N: Numerics>(
    cells: Seq<F32>,
    config: GridConfig,
    far: Point2,
    pose: Pose2,
    points: Seq<Point2>,
    n: nat,
)
    requires
        n <= points.len(),
        forall|i: int|
            0 <= i < points.len() ==> !(#[trigger] points[i]).is_finite() || clipped::<N>(
                Point2 { x: pose.x, y: pose.y },
                pose.transformed::<N>(points[i]),
                config.origin,
                far,
            ) is None,
    ensures
        integrated::<N>(cells, config, far, pose, points, n) == cells,
    decreases n,
{
    if n > 0 {
        law_degenerate_scan_changes_nothing::<N>(cells, config, far, pose, points, (n - 1) as nat);
        assert(!points[n - 1].is_finite() || clipped::<N>(
            Point2 { x: pose.x, y: pose.y },
            pose.transformed::<N>(points[n - 1]),
            config.origin,
            far,
        ) is None);
    }
}

/// Different cells of the grid have different indices.
proof fn lemma_indices_differ(a: (i64, i64), b: (i64, i64), config: GridConfig)
    requires
        inside(a, config.width_cells, config.height_cells),
        a != b,
    ensures
        inside(b, config.width_cells, config.height_cells) ==> index_of(a, config.width_cells)
            != index_of(b, config.width_cells) && 0 <= index_of(b, config.width_cells)
            < config.width_cells * config.height_cells,
        0 <= index_of(a, config.width_cells) < config.width_cells * config.height_cells,
{
    let (w, h) = (config.width_cells as int, config.height_cells as int);
    lemma_index_in_grid(a.0 as int, a.1 as int, w, h);
    if inside(b, config.width_cells, config.height_cells) {
        lemma_index_in_grid(b.0 as int, b.1 as int, w, h);
    }
}

/// Misses change only the cells of their path.
proof fn lemma_misses_change_only_path<N: Numerics>(
    cells: Seq<F32>,
    config: GridConfig,
    path: Seq<(i64, i64)>,
    n: nat,
    cell: (i64, i64),
)
    requires
        cells.len() == config.width_cells * config.height_cells,
        inside(cell, config.width_cells, config.height_cells),
        n <= path.len(),
        !path.contains(cell),
    ensures
        missed::<N>(cells, config, path, n).len() == cells.len(),
        missed::<N>(cells, config, path, n)[index_of(cell, config.width_cells)]
            == cells[index_of(cell, config.width_cells)],
    decreases n,
{
    if n > 0 {
        lemma_misses_change_only_path::<N>(cells, config, path, (n - 1) as nat, cell);
        assert(path[n - 1] != cell);
        lemma_indices_differ(cell, path[n - 1], config);
    }
}

/// `r` is the old value `v` of a cell with `delta` added, held between the clamps; a sum
/// that is a NaN leaves the old value.
pub open spec fn is_updated<N: Numerics>(r: F32, v: F32, delta: F32, config: GridConfig) -> bool {
    let total = sum32::<N>(v, delta);
    &&& config.l_min.le(total) && total.le(config.l_max) ==> r == total
    &&& total.lt(config.l_min) ==> r == config.l_min
    &&& config.l_max.lt(total) ==> r == config.l_max
    &&& total.is_nan() ==> r == v
}

/// What a beam does to each cell, whatever its old value: a cell of the line before its
/// end gets one miss, the end gets one hit or, where the beam is cut off, one miss, and
/// every other cell keeps its value. Cells outside the grid do not exist.
pub proof fn law_beam_updates_each_cell_once<N: Numerics>(
    cells: Seq<F32>,
    config: GridConfig,
    start: (i64, i64),
    end: (i64, i64),
    cut: bool,
    cell: (i64, i64),
)
    requires
        config.fault() is None,
        cells.len() == config.width_cells * config.height_cells,
        inside(cell, config.width_cells, config.height_cells),
    ensures
        ({
            let i = cell.1 * config.width_cells + cell.0;
            let (v, r) = (cells[i], swept::<N>(cells, config, start, end, cut)[i]);
            &&& line(start, end).contains(cell) ==> is_updated::<N>(r, v, config.l_miss, config)
            &&& cell == end && !cut ==> is_updated::<N>(r, v, config.l_hit, config)
            &&& cell == end && cut ==> is_updated::<N>(r, v, config.l_miss, config)
            &&& cell != end && !line(start, end).contains(cell) ==> r == v
        }),
{
    let path = line(start, end);
    let i = index_of(cell, config.width_cells);
    let before = missed::<N>(cells, config, path, path.len());
    law_line_excludes_to(start, end);
    lemma_indices_apart(cell, config);
    if path.contains(cell) {
        let k = choose|k: int| 0 <= k < path.len() && path[k] == cell;
        lemma_one_miss::<N>(cells, config, start, end, path.len(), cell, k);
        assert(cell != end);
        lemma_indices_differ(cell, end, config);
    } else {
        lemma_misses_change_only_path::<N>(cells, config, path, path.len(), cell);
        if cell != end {
            lemma_indices_differ(cell, end, config);
        }
    }
}

/// A cell of the grid has an index in it.
proof fn lemma_indices_apart(cell: (i64, i64), config: GridConfig)
    requires
        inside(cell, config.width_cells, config.height_cells),
    ensures
        0 <= index_of(cell, config.width_cells) < config.width_cells * config.height_cells,
{
    lemma_index_in_grid(
        cell.0 as int,
        cell.1 as int,
        config.width_cells as int,
        config.height_cells as int,
    );
}

/// The `k`-th cell of a line has its old value before step `k` and its updated value
/// behind it.
proof fn lemma_one_miss<N: Numerics>(
    cells: Seq<F32>,
    config: GridConfig,
    start: (i64, i64),
    end: (i64, i64),
    n: nat,
    cell: (i64, i64),
    k: int,
)
    requires
        config.fault() is None,
        cells.len() == config.width_cells * config.height_cells,
        inside(cell, config.width_cells, config.height_cells),
        n <= line(start, end).len(),
        0 <= k < line(start, end).len(),
        line(start, end)[k] == cell,
    ensures
        missed::<N>(cells, config, line(start, end), n).len() == cells.len(),
        ({
            let i = index_of(cell, config.width_cells);
            let r = missed::<N>(cells, config, line(start, end), n)[i];
            &&& n <= k ==> r == cells[i]
            &&& n > k ==> is_updated::<N>(r, cells[i], config.l_miss, config)
        }),
    decreases n,
{
    let path = line(start, end);
    lemma_indices_apart(cell, config);
    if n > 0 {
        lemma_one_miss::<N>(cells, config, start, end, (n - 1) as nat, cell, k);
        let at = path[n - 1];
        if n - 1 != k {
            if n - 1 < k {
                law_line_visits_each_cell_once(start, end, n - 1, k);
            } else {
                law_line_visits_each_cell_once(start, end, k, n - 1);
            }
            lemma_indices_differ(cell, at, config);
        }
    }
}

} // verus!
