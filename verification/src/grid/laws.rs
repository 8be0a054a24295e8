//! Where cells lie, what beams do to them, and how they are read.

use vstd::prelude::*;

use crate::accuracy::{
    indices, lemma_divided_bound, lemma_indices_step, lemma_product_admitted, lemma_scaled_bound,
    near, size, Accuracy,
};
use crate::convert::{floored, lemma_floor_is_exact};
use crate::error::SlamError;
use crate::float::{
    law_order_is_value_order, lemma_units_of_constants, lemma_units_of_numbers, unit, F32, F64,
};
use crate::grid::bresenham::law_line_starts_at_from;
use crate::grid::cellmath::{
    box_span, cell_of, clipped, clips_exactly, inside, is_exactly_along,
    law_clipping_keeps_what_lies_in_the_box, lemma_span_at, lies_in_box, ClippedSegment,
};
use crate::grid::image::{gray, grey_level, pgm_pixel, top_first, WHITE};
use crate::grid::{
    centre, centres, integrated, is_updated, law_beam_updates_each_cell_once, least_log_odds,
    lemma_index_in_grid, probability, with_beam, GridConfig, GREATEST_THRESHOLD, HALF,
    LEAST_THRESHOLD, MARGIN, ONE32,
};
use crate::numerics::{
    difference, difference32, exp_of32, float_of, ln_of32, product, quotient, quotient32, sum,
    sum32, widen_of, Numerics,
};
use crate::pose::{Point2, Pose2};

verus! {

// ---- Cells ----

/// A coordinate lies in its cell, up to rounding.
proof fn lemma_in_cell<N: Numerics>(c: Accuracy, p: F64, origin: F64, resolution: F64)
    requires
        c.wf(),
        c.describes::<N>(),
        c.describes_quotients::<N>(),
        c.admits(p) && c.admits(origin),
        resolution.is_finite() && resolution.units() > 0,
        unit() * (size(p.units() - origin.units()) + c.e) <= c.limit * resolution.units(),
        floored(quotient::<N>(difference::<N>(p, origin), resolution)) is Some,
    ensures
        ({
            let i = floored(quotient::<N>(difference::<N>(p, origin), resolution))->0;
            let (d, r) = (p.units() - origin.units(), resolution.units());
            let slack = c.e * r + unit() * c.e;
            unit() * (i * r) - slack <= unit() * d && unit() * d < unit() * (i * r + r) + slack
        }),
{
    lemma_units_of_constants();
    let w = difference::<N>(p, origin);
    let q = quotient::<N>(w, resolution);
    let (u, e, r, x) = (unit(), c.e, resolution.units(), q.units());
    let (a, d) = (w.units(), p.units() - origin.units());
    assert(u * size(a) <= c.limit * r) by (nonlinear_arith)
        requires
            u > 0,
            size(a) <= size(d) + e,
            u * (size(d) + e) <= c.limit * r,
    ;
    lemma_floor_is_exact(q);
    let i = floored(q)->0 as int;
    assert((i * u) * r <= x * r && x * r < (i * u + u) * r) by (nonlinear_arith)
        requires
            i * u <= x < i * u + u,
            r > 0,
    ;
    assert((i * u) * r == u * (i * r) && (i * u + u) * r == u * (i * r + r)) by (nonlinear_arith);
    lemma_scaled_bound(u, a, d, e);
}

/// A point lies in its cell: between the cell's lower edge and the next one in either
/// coordinate, counted from the origin in steps of the resolution, up to rounding.
pub proof fn law_point_lies_in_its_cell<N: Numerics>(
    c: Accuracy,
    p: Point2,
    origin: Point2,
    resolution: F64,
    cell: (i64, i64),
)
    requires
        c.wf(),
        c.describes::<N>(),
        c.describes_quotients::<N>(),
        c.admits(p.x) && c.admits(p.y) && c.admits(origin.x) && c.admits(origin.y),
        resolution.is_finite() && resolution.units() > 0,
        unit() * (size(p.x.units() - origin.x.units()) + c.e) <= c.limit * resolution.units(),
        unit() * (size(p.y.units() - origin.y.units()) + c.e) <= c.limit * resolution.units(),
        cell_of::<N>(p, origin, resolution) == Some(cell),
    ensures
        ({
            let r = resolution.units();
            let (x, y) = (p.x.units() - origin.x.units(), p.y.units() - origin.y.units());
            let slack = c.e * r + unit() * c.e;
            &&& unit() * (cell.0 * r) - slack <= unit() * x
            &&& unit() * x < unit() * (cell.0 * r + r) + slack
            &&& unit() * (cell.1 * r) - slack <= unit() * y
            &&& unit() * y < unit() * (cell.1 * r + r) + slack
        }),
{
    lemma_in_cell::<N>(c, p.x, origin.x, resolution);
    lemma_in_cell::<N>(c, p.y, origin.y, resolution);
}

/// The middle of a cell along one axis.
proof fn lemma_middle<N: Numerics>(c: Accuracy, origin: F64, i: u32, resolution: F64)
    requires
        c.wf(),
        c.describes::<N>(),
        c.counts::<N>(),
        c.admits(origin),
        c.is_factor(resolution) && resolution.units() > 0,
        (i + 1) * unit() + c.e <= c.side,
    ensures
        near(
            2 * (unit() * (sum::<N>(
                origin,
                product::<N>(sum::<N>(float_of::<N>(i), F64 { bits: HALF }), resolution),
            ).units() - origin.units())),
            (2 * i + 1) * (unit() * resolution.units()),
            4 * (unit() * c.e) + 2 * (c.e * resolution.units()),
        ),
{
    lemma_units_of_constants();
    lemma_units_of_numbers();
    let half = F64 { bits: HALF };
    let (u, e, r) = (unit(), c.e, resolution.units());
    let n = float_of::<N>(i);
    assert((i + 1) * u == i * u + u && i * u >= 0) by (nonlinear_arith)
        requires
            u > 0,
    ;
    let s = sum::<N>(n, half);
    lemma_product_admitted::<N>(c, s, resolution);
    let p = product::<N>(s, resolution);
    let m = sum::<N>(origin, p).units();
    let (a, b, o) = (s.units(), p.units(), origin.units());
    lemma_scaled_bound(u, m, o + b, e);
    assert(u * (o + b) == u * o + u * b && u * (m - o) == u * m - u * o) by (nonlinear_arith);
    lemma_scaled_bound(r, 2 * a, 2 * (i * u) + u, 2 * e);
    assert(r * (2 * a) == 2 * (a * r) && r * (2 * e) == 2 * (e * r)) by (nonlinear_arith);
    assert(r * (2 * (i * u) + u) == (2 * i + 1) * (u * r)) by (nonlinear_arith);
}

/// The centre of a cell lies half a cell from its lower edges: `origin + (c + 1/2)·r`, up
/// to rounding.
pub proof fn law_centre_lies_in_the_middle<N: Numerics>(
    c: Accuracy,
    config: GridConfig,
    cx: u32,
    cy: u32,
)
    requires
        c.wf(),
        c.describes::<N>(),
        c.counts::<N>(),
        c.admits(config.origin.x) && c.admits(config.origin.y),
        c.is_factor(config.resolution_m) && config.resolution_m.units() > 0,
        (cx + 1) * unit() + c.e <= c.side,
        (cy + 1) * unit() + c.e <= c.side,
    ensures
        ({
            let m = centre::<N>(config, cx, cy);
            let r = config.resolution_m.units();
            let slack = 4 * (unit() * c.e) + 2 * (c.e * r);
            &&& near(
                2 * (unit() * (m.x.units() - config.origin.x.units())),
                (2 * cx + 1) * (unit() * r),
                slack,
            )
            &&& near(
                2 * (unit() * (m.y.units() - config.origin.y.units())),
                (2 * cy + 1) * (unit() * r),
                slack,
            )
        }),
{
    lemma_middle::<N>(c, config.origin.x, cx, config.resolution_m);
    lemma_middle::<N>(c, config.origin.y, cy, config.resolution_m);
}

/// Cell `i` exceeds `least`.
pub open spec fn exceeds(cells: Seq<F32>, least: F32) -> spec_fn(int) -> bool {
    |i: int| least.lt(cells[i])
}

/// The cell in column `x` of row `y` is one of the first `n`, and exceeds `least`.
pub open spec fn is_above(
    cells: Seq<F32>,
    config: GridConfig,
    least: F32,
    n: nat,
    x: u32,
    y: u32,
) -> bool {
    let i = y * config.width_cells + x;
    x < config.width_cells && i < n && least.lt(cells[i])
}

/// `p` is the centre of such a cell.
pub open spec fn is_centre_above<N: Numerics>(
    cells: Seq<F32>,
    config: GridConfig,
    least: F32,
    n: nat,
    p: Point2,
) -> bool {
    exists|x: u32, y: u32| #[trigger]
        is_above(cells, config, least, n, x, y) && p == centre::<N>(config, x, y)
}

/// The obstacles are the centres of exactly the cells above the threshold: one for each,
/// at the cell's own column and row, and no others.
pub proof fn law_obstacles_are_the_cells_above<N: Numerics>(
    cells: Seq<F32>,
    config: GridConfig,
    least: F32,
    n: nat,
)
    requires
        n <= cells.len(),
        cells.len() == config.width_cells * config.height_cells,
        config.width_cells <= u32::MAX,
        config.height_cells <= u32::MAX,
    ensures
        ({
            let r = centres::<N>(cells, config, least, n);
            &&& r.len() == indices(n, exceeds(cells, least)).len()
            &&& forall|x: u32, y: u32| #[trigger]
                is_above(cells, config, least, n, x, y) ==> r.contains(centre::<N>(config, x, y))
            &&& forall|k: int|
                0 <= k < r.len() ==> is_centre_above::<N>(cells, config, least, n, #[trigger] r[k])
        }),
    decreases n,
{
    let pick = exceeds(cells, least);
    lemma_indices_step(0, pick);
    let r = centres::<N>(cells, config, least, n);
    let (w, h) = (config.width_cells as int, config.height_cells as int);
    if n > 0 {
        let i = n - 1;
        law_obstacles_are_the_cells_above::<N>(cells, config, least, i as nat);
        lemma_indices_step(i as nat, pick);
        let before = centres::<N>(cells, config, least, i as nat);
        assert(w > 0) by (nonlinear_arith)
            requires
                0 <= i < w * h,
                w >= 0,
                h >= 0,
        ;
        assert(0 <= i % w < w && 0 <= i / w < h && i == (i / w) * w + i % w) by (nonlinear_arith)
            requires
                0 <= i < w * h,
                w > 0,
        ;
        let (cx, cy) = ((i % w) as u32, (i / w) as u32);
        assert forall|x: u32, y: u32| #[trigger]
            is_above(cells, config, least, n, x, y) implies r.contains(
            centre::<N>(config, x, y),
        ) by {
            let j = y * w + x;
            if j == i {
                assert(x == cx && y == cy) by (nonlinear_arith)
                    requires
                        y * w + x == cy * w + cx,
                        0 <= x < w,
                        0 <= cx < w,
                ;
                assert(r[before.len() as int] == centre::<N>(config, x, y));
            } else {
                assert(is_above(cells, config, least, i as nat, x, y));
                assert(before.contains(centre::<N>(config, x, y)));
                let k = choose|k: int|
                    0 <= k < before.len() && before[k] == centre::<N>(config, x, y);
                assert(r[k] == before[k]);
            }
        }
        assert forall|k: int| 0 <= k < r.len() implies is_centre_above::<N>(
            cells,
            config,
            least,
            n,
            #[trigger] r[k],
        ) by {
            if k < before.len() {
                assert(is_centre_above::<N>(cells, config, least, i as nat, before[k]));
                let (x, y) = choose|x: u32, y: u32| #[trigger]
                    is_above(cells, config, least, i as nat, x, y) && before[k] == centre::<N>(
                        config,
                        x,
                        y,
                    );
                assert(is_above(cells, config, least, n, x, y));
            } else {
                assert(is_above(cells, config, least, n, cx, cy));
            }
        }
    } else {
        assert forall|x: u32, y: u32| !#[trigger] is_above(cells, config, least, 0, x, y) by {
            assert(y * w >= 0) by (nonlinear_arith)
                requires
                    w >= 0,
            ;
        }
    }
}

/// The far corner of the clip box lies a sliver inside the far corner of the grid: the
/// origin plus the grid's sides, less a margin of a billionth of a cell, up to rounding.
pub proof fn law_far_corner_lies_just_inside<N: Numerics>(c: Accuracy, config: GridConfig)
    requires
        c.wf(),
        c.describes::<N>(),
        c.counts::<N>(),
        c.admits(config.origin.x) && c.admits(config.origin.y),
        c.is_factor(config.resolution_m),
        config.width_cells <= u32::MAX && config.height_cells <= u32::MAX,
        config.width_cells * unit() <= c.side && config.height_cells * unit() <= c.side,
        unit() <= c.side,
        reaches_across(c, config.origin.x, config.width_cells as int, config.resolution_m),
        reaches_across(c, config.origin.y, config.height_cells as int, config.resolution_m),
    ensures
        ({
            let far = config.far_corner::<N>();
            let (r, m) = (config.resolution_m.units(), (F64 { bits: MARGIN }).units());
            let (w, h) = (config.width_cells as int, config.height_cells as int);
            &&& near(
                unit() * (far.x.units() - config.origin.x.units()),
                r * (w * unit()) - r * m,
                4 * (unit() * c.e),
            )
            &&& near(
                unit() * (far.y.units() - config.origin.y.units()),
                r * (h * unit()) - r * m,
                4 * (unit() * c.e),
            )
            &&& 999_999_999 * m < unit()
            &&& unit() < 1_000_000_001 * m
        }),
{
    lemma_margin();
    lemma_far_edge::<N>(c, config.origin.x, config.width_cells as u32, config.resolution_m);
    lemma_far_edge::<N>(c, config.origin.y, config.height_cells as u32, config.resolution_m);
}

/// The far edge of the grid is an operand.
pub open spec fn reaches_across(c: Accuracy, origin: F64, n: int, resolution: F64) -> bool {
    size(origin.units()) + n * size(resolution.units()) + 2 * c.e <= c.limit
}

/// The margin is a billionth.
proof fn lemma_margin()
    ensures
        ({
            let m = F64 { bits: MARGIN };
            &&& m.is_finite()
            &&& 0 < m.units()
            &&& 999_999_999 * m.units() < unit()
            &&& unit() < 1_000_000_001 * m.units()
        }),
{
    let m = F64 { bits: MARGIN };
    assert(m.exponent() == 993);
    assert(m.significand() == 0x0011_2e0b_e826_d695);
    vstd::arithmetic::power2::lemma_pow2_pos(992);
    vstd::arithmetic::power2::lemma_pow2_adds(992, 82);
    vstd::arithmetic::power2::lemma_pow2_adds(41, 41);
    vstd::arithmetic::power2::lemma2_to64_rest();
    let p = vstd::arithmetic::power2::pow2(992) as int;
    let s: int = 0x0011_2e0b_e826_d695;
    let k = 0x200_0000_0000int * 0x200_0000_0000int;
    assert(unit() == p * k);
    assert(m.units() == s * p);
    assert(999_999_999 * (s * p) < p * k && p * k < 1_000_000_001 * (s * p)) by (nonlinear_arith)
        requires
            p > 0,
            999_999_999 * s < k,
            k < 1_000_000_001 * s,
    ;
    assert(s * p > 0) by (nonlinear_arith)
        requires
            p > 0,
            s > 0,
    ;
}

/// One coordinate of the far corner.
proof fn lemma_far_edge<N: Numerics>(c: Accuracy, origin: F64, n: u32, resolution: F64)
    requires
        c.wf(),
        c.describes::<N>(),
        c.counts::<N>(),
        c.admits(origin),
        c.is_factor(resolution),
        n * unit() <= c.side,
        unit() <= c.side,
        reaches_across(c, origin, n as int, resolution),
    ensures
        ({
            let margin = product::<N>(resolution, F64 { bits: MARGIN });
            let width = product::<N>(resolution, float_of::<N>(n));
            let far = difference::<N>(sum::<N>(origin, width), margin);
            near(
                unit() * (far.units() - origin.units()),
                resolution.units() * (n * unit()) - resolution.units() * (F64 {
                    bits: MARGIN,
                }).units(),
                4 * (unit() * c.e),
            )
        }),
{
    lemma_units_of_constants();
    lemma_margin();
    let m = F64 { bits: MARGIN };
    let (u, e, r, o) = (unit(), c.e, resolution.units(), origin.units());
    assert(n * u >= 0) by (nonlinear_arith)
        requires
            u > 0,
    ;
    lemma_product_admitted::<N>(c, resolution, m);
    lemma_product_admitted::<N>(c, resolution, float_of::<N>(n));
    let margin = product::<N>(resolution, m);
    let width = product::<N>(resolution, float_of::<N>(n));
    let edge = sum::<N>(origin, width);
    let (a, b, f) = (width.units(), margin.units(), edge.units());
    assert(r * (n * u) == u * (n * r)) by (nonlinear_arith);
    assert(u * a - u * (n * r) == u * (a - n * r)) by (nonlinear_arith);
    lemma_divided_bound(u, a - n * r, e);
    assert(size(n * r) <= n * size(r)) by (nonlinear_arith)
        requires
            n >= 0,
            size(r) >= r,
            size(r) >= -r,
            size(n * r) == n * r || size(n * r) == -(n * r),
    ;
    assert(c.admits(edge));
    let far = difference::<N>(edge, margin).units();
    lemma_scaled_bound(u, far, f - b, e);
    lemma_scaled_bound(u, f, o + a, e);
    assert(u * (f - b) == u * f - u * b && u * (o + a) == u * o + u * a && u * (far - o) == u * far
        - u * o) by (nonlinear_arith);
}

// ---- Beams ----

/// A scan of one point, with the sensor and the point inside the grid, misses the cell of
/// the sensor and hits the cell of the point, where clipping does not round.
pub proof fn law_point_in_the_grid_is_hit<N: Numerics>(
    cells: Seq<F32>,
    config: GridConfig,
    far: Point2,
    pose: Pose2,
    p: Point2,
    seg: ClippedSegment,
    span: (F64, F64),
    start: (i64, i64),
    end: (i64, i64),
)
    requires
        config.fault() is None,
        cells.len() == config.width_cells * config.height_cells,
        p.is_finite(),
        ({
            let sensor = Point2 { x: pose.x, y: pose.y };
            let target = pose.transformed::<N>(p);
            &&& clips_exactly::<N>(sensor, target, config.origin, far)
            &&& lies_in_box(sensor, target, config.origin, far, 0)
            &&& lies_in_box(sensor, target, config.origin, far, unit())
            &&& clipped::<N>(sensor, target, config.origin, far) == Some(seg)
            &&& box_span::<N>(
                sensor,
                difference::<N>(target.x, sensor.x),
                difference::<N>(target.y, sensor.y),
                config.origin,
                far,
            ) == Some(span)
            &&& is_exactly_along(seg.start, sensor, target, span.0)
            &&& is_exactly_along(seg.end, sensor, target, span.1)
        }),
        cell_of::<N>(seg.start, config.origin, config.resolution_m) == Some(start),
        cell_of::<N>(seg.end, config.origin, config.resolution_m) == Some(end),
        inside(start, config.width_cells, config.height_cells),
        inside(end, config.width_cells, config.height_cells),
    ensures
        seg.start.x.units() == pose.x.units() && seg.start.y.units() == pose.y.units(),
        seg.end.x.units() == pose.transformed::<N>(p).x.units(),
        seg.end.y.units() == pose.transformed::<N>(p).y.units(),
        ({
            let r = integrated::<N>(cells, config, far, pose, seq![p], 1);
            let i = start.1 * config.width_cells + start.0;
            let j = end.1 * config.width_cells + end.0;
            &&& is_updated::<N>(r[j], cells[j], config.l_hit, config)
            &&& start != end ==> is_updated::<N>(r[i], cells[i], config.l_miss, config)
        }),
{
    lemma_units_of_constants();
    let sensor = Point2 { x: pose.x, y: pose.y };
    let target = pose.transformed::<N>(p);
    law_clipping_keeps_what_lies_in_the_box::<N>(sensor, target, config.origin, far);
    assert(span.0.units() <= 0 && span.1.units() >= unit());
    lemma_span_is_whole::<N>(sensor, target, config.origin, far, span);
    lemma_same_value(seg.start.x.units(), pose.x.units(), target.x.units(), 0);
    lemma_same_value(seg.start.y.units(), pose.y.units(), target.y.units(), 0);
    lemma_same_value(seg.end.x.units(), pose.x.units(), target.x.units(), unit());
    lemma_same_value(seg.end.y.units(), pose.y.units(), target.y.units(), unit());
    assert(integrated::<N>(cells, config, far, pose, seq![p], 0) == cells);
    assert(seq![p][0] == p);
    assert(integrated::<N>(cells, config, far, pose, seq![p], 1) == with_beam::<N>(
        cells,
        config,
        far,
        sensor,
        target,
    ));
    law_beam_updates_each_cell_once::<N>(cells, config, start, end, false, end);
    law_beam_updates_each_cell_once::<N>(cells, config, start, end, false, start);
    if start != end {
        law_line_starts_at_from(start, end);
    }
}

/// A scan of one point touches nothing if no part of its beam lies in the grid.
pub proof fn law_beam_outside_changes_nothing<N: Numerics>(
    cells: Seq<F32>,
    config: GridConfig,
    far: Point2,
    pose: Pose2,
    p: Point2,
)
    requires
        clips_exactly::<N>(
            Point2 { x: pose.x, y: pose.y },
            pose.transformed::<N>(p),
            config.origin,
            far,
        ),
        forall|t: int|
            0 <= t <= unit() ==> !#[trigger] lies_in_box(
                Point2 { x: pose.x, y: pose.y },
                pose.transformed::<N>(p),
                config.origin,
                far,
                t,
            ),
    ensures
        integrated::<N>(cells, config, far, pose, seq![p], 1) == cells,
{
    law_clipping_keeps_what_lies_in_the_box::<N>(
        Point2 { x: pose.x, y: pose.y },
        pose.transformed::<N>(p),
        config.origin,
        far,
    );
    assert(integrated::<N>(cells, config, far, pose, seq![p], 0) == cells);
}

/// A span that holds both ends of the segment is the whole.
proof fn lemma_span_is_whole<N: Numerics>(
    a: Point2,
    b: Point2,
    min: Point2,
    max: Point2,
    span: (F64, F64),
)
    requires
        clips_exactly::<N>(a, b, min, max),
        lies_in_box(a, b, min, max, 0),
        lies_in_box(a, b, min, max, unit()),
        box_span::<N>(
            a,
            difference::<N>(b.x, a.x),
            difference::<N>(b.y, a.y),
            min,
            max,
        ) == Some(span),
    ensures
        span.0.units() == 0,
        span.1.units() == unit(),
{
    lemma_units_of_constants();
    lemma_span_at::<N>(a, b, min, max, 0);
    lemma_span_at::<N>(a, b, min, max, unit());
    lemma_span_at::<N>(a, b, min, max, span.0.units());
    lemma_span_at::<N>(a, b, min, max, span.1.units());
}

/// A point at the start or the end of a segment.
proof fn lemma_same_value(p: int, a: int, b: int, t: int)
    requires
        t == 0 || t == unit(),
        unit() * p == unit() * a + t * (b - a),
    ensures
        t == 0 ==> p == a,
        t == unit() ==> p == b,
{
    lemma_units_of_constants();
    let u = unit();
    if t == 0 {
        assert(p == a) by (nonlinear_arith)
            requires
                u > 0,
                u * p == u * a + 0 * (b - a),
        ;
    } else {
        assert(p == b) by (nonlinear_arith)
            requires
                u > 0,
                u * p == u * a + u * (b - a),
        ;
    }
}

// ---- Readings ----

/// Single-precision operations keep the order: quotients, logarithms and exponentials
/// rise with their operand, a difference falls with what is taken away, and a quotient
/// with what it is divided by.
pub open spec fn keeps_order32<N: Numerics>() -> bool {
    let one = F32 { bits: ONE32 };
    let zero = F32 { bits: 0 };
    &&& forall|a: F32, b: F32|
        #![trigger exp_of32::<N>(a), exp_of32::<N>(b)]
        a.le(b) ==> exp_of32::<N>(a).le(exp_of32::<N>(b))
    &&& forall|a: F32| !a.is_nan() ==> zero.le(#[trigger] exp_of32::<N>(a))
    &&& forall|a: F32, b: F32|
        #![trigger sum32::<N>(one, a), sum32::<N>(one, b)]
        zero.le(a) && a.le(b) ==> sum32::<N>(one, a).le(sum32::<N>(one, b)) && zero.lt(
            sum32::<N>(one, a),
        )
    &&& forall|a: F32, b: F32|
        #![trigger quotient32::<N>(one, a), quotient32::<N>(one, b)]
        zero.lt(a) && a.le(b) ==> quotient32::<N>(one, b).le(quotient32::<N>(one, a))
    &&& forall|a: F32, b: F32|
        #![trigger difference32::<N>(one, a), difference32::<N>(one, b)]
        a.le(b) ==> difference32::<N>(one, b).le(difference32::<N>(one, a))
    &&& forall|a: F32|
        zero.lt(a) && a.lt(one) ==> zero.lt(#[trigger] difference32::<N>(one, a))
    &&& forall|a: F32, b: F32, x: F32, y: F32|
        #![trigger quotient32::<N>(a, x), quotient32::<N>(b, y)]
        zero.lt(a) && a.le(b) && zero.lt(y) && y.le(x) && x.is_finite() && b.is_finite()
            ==> quotient32::<N>(a, x).le(quotient32::<N>(b, y)) && zero.le(quotient32::<N>(a, x))
    &&& forall|a: F32, b: F32|
        #![trigger ln_of32::<N>(a), ln_of32::<N>(b)]
        zero.le(a) && a.le(b) ==> ln_of32::<N>(a).le(ln_of32::<N>(b))
}

/// Greater log-odds are no smaller a probability.
pub proof fn law_probability_rises_with_log_odds<N: Numerics>(a: F32, b: F32)
    requires
        keeps_order32::<N>(),
        a.le(b),
    ensures
        probability::<N>(a).le(probability::<N>(b)),
{
    let one = F32 { bits: ONE32 };
    let (x, y) = (exp_of32::<N>(a), exp_of32::<N>(b));
    assert(x.le(y));
    let (p, q) = (sum32::<N>(one, x), sum32::<N>(one, y));
    assert(p.le(q));
    assert(quotient32::<N>(one, q).le(quotient32::<N>(one, p)));
}

/// Even odds are a probability of one half, where the operations on one, two and a half
/// are exact.
pub proof fn law_even_odds_are_one_half<N: Numerics>()
    requires
        exp_of32::<N>(F32 { bits: 0 }) == (F32 { bits: ONE32 }),
        sum32::<N>(F32 { bits: ONE32 }, F32 { bits: ONE32 }) == (F32 { bits: 0x4000_0000 }),
        quotient32::<N>(F32 { bits: ONE32 }, F32 { bits: 0x4000_0000 }) == (F32 {
            bits: 0x3f00_0000,
        }),
        difference32::<N>(F32 { bits: ONE32 }, F32 { bits: 0x3f00_0000 }) == (F32 {
            bits: 0x3f00_0000,
        }),
    ensures
        probability::<N>(F32 { bits: 0 }) == (F32 { bits: 0x3f00_0000 }),
{
}

/// A higher occupancy threshold asks for no smaller log-odds.
pub proof fn law_threshold_rises_with_probability<N: Numerics>(a: F32, b: F32)
    requires
        keeps_order32::<N>(),
        a.le(b),
        forall|t: F32|
            (F32 { bits: LEAST_THRESHOLD }).le(t) && t.le(F32 { bits: GREATEST_THRESHOLD })
                ==> (#[trigger] difference32::<N>(F32 { bits: ONE32 }, t)).is_finite(),
    ensures
        least_log_odds::<N>(a).le(least_log_odds::<N>(b)),
{
}

// ---- Images ----

/// A pixel of the exported map tells occupied, unknown and free cells apart, and a higher
/// probability is never lighter.
pub proof fn law_map_pixel_darkens_with_probability(p: F32, q: F32)
    requires
        p.le(q),
    ensures
        pgm_pixel(q) <= pgm_pixel(p),
        pgm_pixel(p) == 0 || pgm_pixel(p) == 205 || pgm_pixel(p) == 254,
{
}

/// The grey of a free share `f` is `255·f` to the nearest integer, up to rounding.
pub proof fn law_grey_is_the_nearest_level<N: Numerics>(c: Accuracy, l: F32, f: F64)
    requires
        c.wf(),
        c.describes::<N>(),
        255 * unit() <= c.side,
        f == widen_of::<N>(
            difference32::<N>(F32 { bits: ONE32 }, probability::<N>(l)).clamped(
                F32 { bits: 0 },
                F32 { bits: ONE32 },
            ),
        ),
        f.is_finite() && 0 <= f.units() <= unit(),
        2 * c.e < unit(),
    ensures
        gray::<N>(l) == 205 || near(
            2 * (gray::<N>(l) * unit()),
            2 * (255 * f.units()),
            unit() + 4 * c.e,
        ),
{
    lemma_units_of_constants();
    lemma_units_of_numbers();
    let (white, half) = (F64 { bits: WHITE }, F64 { bits: HALF });
    lemma_white();
    let u = unit();
    lemma_product_admitted::<N>(c, f, white);
    let p = product::<N>(f, white);
    let (a, x, e) = (p.units(), f.units(), c.e);
    assert(x * (255 * u) == u * (255 * x) && u * a - u * (255 * x) == u * (a - 255 * x))
        by (nonlinear_arith);
    lemma_divided_bound(u, a - 255 * x, e);
    let s = sum::<N>(p, half);
    assert(gray::<N>(l) == grey_level(s));
    if floored(s) is Some {
        lemma_floor_is_exact(s);
    }
}

/// The value of 255.
proof fn lemma_white()
    ensures
        (F64 { bits: WHITE }).units() == 255 * unit(),
        (F64 { bits: WHITE }).is_finite(),
{
    let w = F64 { bits: WHITE };
    assert(w.exponent() == 1030);
    assert(w.significand() == 0x001f_e000_0000_0000);
    vstd::arithmetic::power2::lemma_pow2_adds(1029, 45);
    vstd::arithmetic::power2::lemma2_to64_rest();
    let p = vstd::arithmetic::power2::pow2(1029) as int;
    assert(unit() == p * 0x2000_0000_0000);
    assert(0x001f_e000_0000_0000 * p == 255 * (p * 0x2000_0000_0000)) by (nonlinear_arith);
}

/// The image shows the map with the greatest y on top: the cell in column `x` of row `y`
/// is the pixel in column `x` of row `height - 1 - y`.
pub proof fn law_image_shows_the_last_row_first(
    cells: Seq<F32>,
    width: int,
    height: int,
    x: int,
    y: int,
)
    requires
        0 <= x < width,
        0 <= y < height,
        cells.len() == width * height,
    ensures
        top_first(cells, width, height).len() == cells.len(),
        top_first(cells, width, height)[(height - 1 - y) * width + x] == cells[y * width + x],
{
    lemma_index_in_grid(x, height - 1 - y, width, height);
}

// ---- Configuration ----

/// A configuration is accepted exactly if its resolution is a positive length, its origin
/// a point, its sides positive numbers of 32 bits with no more cells together than
/// allowed, a hit and the upper clamp positive, and a miss and the lower clamp negative.
pub proof fn law_grid_is_accepted_if_sound(config: GridConfig)
    ensures
        config.fault() is None <==> {
            let zero = F32 { bits: 0 };
            &&& config.resolution_m.is_finite() && config.resolution_m.units() > 0
            &&& config.origin.x.is_finite() && config.origin.y.is_finite()
            &&& 1 <= config.width_cells <= u32::MAX
            &&& 1 <= config.height_cells <= u32::MAX
            &&& config.width_cells * config.height_cells <= config.max_cells
            &&& config.l_hit.is_finite() && zero.lt(config.l_hit)
            &&& config.l_miss.is_finite() && config.l_miss.lt(zero)
            &&& config.l_min.is_finite() && config.l_min.lt(zero)
            &&& config.l_max.is_finite() && zero.lt(config.l_max)
        },
        config.fault() matches Some(SlamError::GridTooLarge { cells, limit }) ==> limit
            == config.max_cells && config.width_cells * config.height_cells > limit,
{
    lemma_units_of_constants();
    if config.resolution_m.is_finite() {
        law_order_is_value_order(F64 { bits: 0 }, config.resolution_m);
    }
}

} // verus!
