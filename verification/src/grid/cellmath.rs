//! World↔cell coordinate conversion and segment clipping for the grid.
//!
//! World coordinates are metres; cells are integer indices.

use vstd::prelude::*;

use crate::convert::{floor_to_i64, floored};
use crate::float::{
    law_order_is_value_order, lemma_units_negated, lemma_units_of_constants, unit, F64,
};
use crate::numerics::{
    deterministic, difference, minus, over, plus, product, quotient, sum, times, Numerics,
};
use crate::pose::Point2;

verus! {

/// 1.
pub const ONE: u64 = 0x3ff0_0000_0000_0000;

/// 2^-52: a direction component below this counts as zero.
pub const EPSILON: u64 = 0x3cb0_0000_0000_0000;

/// The cell whose corner coordinates, in cells, are the floors of `gx` and `gy`.
pub open spec fn cell_at(gx: F64, gy: F64) -> Option<(i64, i64)> {
    match (floored(gx), floored(gy)) {
        (Some(cx), Some(cy)) => Some((cx, cy)),
        _ => None,
    }
}

/// The cell of `p` in a grid of `resolution_m` cells from `origin`.
pub open spec fn cell_of<N: Numerics>(p: Point2, origin: Point2, resolution_m: F64) -> Option<
    (i64, i64),
> {
    cell_at(
        quotient::<N>(difference::<N>(p.x, origin.x), resolution_m),
        quotient::<N>(difference::<N>(p.y, origin.y), resolution_m),
    )
}

/// The coordinates of a cell that came out of a floor.
pub open spec fn exact_cell(cell: (i64, i64)) -> bool {
    &&& -0x20_0000_0000_0000 <= cell.0 < 0x20_0000_0000_0000
    &&& -0x20_0000_0000_0000 <= cell.1 < 0x20_0000_0000_0000
}

/// Floor a pair of fractional cell coordinates.
///
/// `None` if either is not finite or too large to be exact.
pub fn floor_cell(gx: F64, gy: F64) -> (r: Option<(i64, i64)>)
    ensures
        r == cell_at(gx, gy),
        r matches Some(cell) ==> exact_cell(cell),
{
    match floor_to_i64(gx) {
        Some(cx) => match floor_to_i64(gy) {
            Some(cy) => Some((cx, cy)),
            None => None,
        },
        None => None,
    }
}

/// Convert a world point (metres) to signed cell coordinates.
///
/// `None` if the point is not finite or so far from `origin` that the cell
/// index is not exactly representable.
pub fn world_to_cell<N: Numerics>(p: Point2, origin: Point2, resolution_m: F64) -> (r: Option<
    (i64, i64),
>)
    ensures
        deterministic::<N>() ==> r == cell_of::<N>(p, origin, resolution_m),
        r matches Some(cell) ==> exact_cell(cell),
{
    floor_cell(
        over::<N>(minus::<N>(p.x, origin.x), resolution_m),
        over::<N>(minus::<N>(p.y, origin.y), resolution_m),
    )
}

/// `cell` lies in a grid of `width` by `height` cells.
pub open spec fn inside(cell: (i64, i64), width: usize, height: usize) -> bool {
    0 <= cell.0 < width && 0 <= cell.1 < height
}

/// Check signed cell coordinates against grid bounds, returning unsigned
/// indices if inside.
pub fn cell_in_bounds(cell: (i64, i64), width: usize, height: usize) -> (r: Option<
    (usize, usize),
>)
    ensures
        r == (if inside(cell, width, height) {
            Some((cell.0 as usize, cell.1 as usize))
        } else {
            None
        }),
        r matches Some((cx, cy)) ==> cx == cell.0 && cy == cell.1,
{
    if cell.0 < 0 || cell.1 < 0 {
        return None;
    }
    let (x, y) = (cell.0 as u64, cell.1 as u64);
    if x < width as u64 && y < height as u64 {
        Some((x as usize, y as usize))
    } else {
        None
    }
}

/// A segment clipped to an axis-aligned bounding box.
#[derive(Debug, Clone, Copy, PartialEq, Eq, Structural)]
pub struct ClippedSegment {
    /// Clipped start point (world metres).
    pub start: Point2,
    /// Clipped end point (world metres).
    pub end: Point2,
    /// `true` if the unclipped end point lay outside the box: the obstacle of a
    /// beam is off-map and must not become a hit.
    pub end_clipped: bool,
}

/// The part `[t0, t1]` of a segment that lies within the slab of one box edge.
///
/// `p` is the component of the direction against the edge, `q` the distance of
/// the start from it and `r` their quotient `q / p`, where the segment crosses
/// the edge. A segment along the edge crosses it nowhere: all of it remains, or
/// nothing if it runs outside.
pub open spec fn narrowed(span: (F64, F64), p: F64, q: F64, r: F64) -> Option<(F64, F64)> {
    let (t0, t1) = span;
    if p.absolute().lt(F64 { bits: EPSILON }) {
        if q.lt(F64 { bits: 0 }) {
            None
        } else {
            Some((t0, t1))
        }
    } else if p.lt(F64 { bits: 0 }) {
        if t1.lt(r) {
            None
        } else if t0.lt(r) {
            Some((r, t1))
        } else {
            Some((t0, t1))
        }
    } else {
        if r.lt(t0) {
            None
        } else if r.lt(t1) {
            Some((t0, r))
        } else {
            Some((t0, t1))
        }
    }
}

/// Narrow the span of a segment to one box edge; see [`narrowed`].
pub fn narrow_span(span: (F64, F64), p: F64, q: F64, r: F64) -> (s: Option<(F64, F64)>)
    ensures
        s == narrowed(span, p, q, r),
{
    let (t0, t1) = span;
    if p.absolute().lt(F64 { bits: EPSILON }) {
        if q.lt(F64 { bits: 0 }) {
            return None;
        }
    } else if p.lt(F64 { bits: 0 }) {
        if t1.lt(r) {
            return None;
        }
        if t0.lt(r) {
            return Some((r, t1));
        }
    } else {
        if r.lt(t0) {
            return None;
        }
        if r.lt(t1) {
            return Some((t0, r));
        }
    }
    Some((t0, t1))
}

/// The span that remains after one more edge, if any.
pub open spec fn narrowed_by<N: Numerics>(span: Option<(F64, F64)>, p: F64, q: F64) -> Option<
    (F64, F64),
> {
    match span {
        Some(s) => narrowed(s, p, q, quotient::<N>(q, p)),
        None => None,
    }
}

/// The span of the segment from `a` in direction `(dx, dy)` within the box
/// `[min, max]`.
pub open spec fn box_span<N: Numerics>(
    a: Point2,
    dx: F64,
    dy: F64,
    min: Point2,
    max: Point2,
) -> Option<(F64, F64)> {
    let whole = Some((F64 { bits: 0 }, F64 { bits: ONE }));
    let left = narrowed_by::<N>(whole, dx.negated(), difference::<N>(a.x, min.x));
    let right = narrowed_by::<N>(left, dx, difference::<N>(max.x, a.x));
    let bottom = narrowed_by::<N>(right, dy.negated(), difference::<N>(a.y, min.y));
    narrowed_by::<N>(bottom, dy, difference::<N>(max.y, a.y))
}

/// The point of a segment at parameter `t`.
pub open spec fn along<N: Numerics>(a: Point2, dx: F64, dy: F64, t: F64) -> Point2 {
    Point2 {
        x: sum::<N>(a.x, product::<N>(t, dx)),
        y: sum::<N>(a.y, product::<N>(t, dy)),
    }
}

/// The segment `a → b` within the box `[min, max]`.
pub open spec fn clipped<N: Numerics>(a: Point2, b: Point2, min: Point2, max: Point2) -> Option<
    ClippedSegment,
> {
    let dx = difference::<N>(b.x, a.x);
    let dy = difference::<N>(b.y, a.y);
    if !(a.is_finite() && b.is_finite() && min.is_finite() && max.is_finite()) {
        None
    } else {
        match box_span::<N>(a, dx, dy, min, max) {
            Some((t0, t1)) => Some(
                ClippedSegment {
                    start: along::<N>(a, dx, dy, t0),
                    end: along::<N>(a, dx, dy, t1),
                    end_clipped: t1.lt(F64 { bits: ONE }),
                },
            ),
            None => None,
        }
    }
}

/// Narrow the span of a segment to the edge with direction component `p` and
/// start distance `q`.
fn clip_edge<N: Numerics>(span: (F64, F64), p: F64, q: F64) -> (s: Option<(F64, F64)>)
    ensures
        deterministic::<N>() ==> s == narrowed_by::<N>(Some(span), p, q),
{
    narrow_span(span, p, q, over::<N>(q, p))
}

/// Clip the segment `a → b` to the box `[min, max]` (Liang–Barsky).
///
/// `None` if the segment lies entirely outside the box or any input is not finite.
pub fn clip_segment_to_aabb<N: Numerics>(a: Point2, b: Point2, min: Point2, max: Point2) -> (r:
    Option<ClippedSegment>)
    ensures
        deterministic::<N>() ==> r == clipped::<N>(a, b, min, max),
        !(a.is_finite() && b.is_finite() && min.is_finite() && max.is_finite()) ==> r is None,
{
    if !(a.is_finite() && b.is_finite() && min.is_finite() && max.is_finite()) {
        return None;
    }
    let dx = minus::<N>(b.x, a.x);
    let dy = minus::<N>(b.y, a.y);
    let whole = (F64 { bits: 0 }, F64 { bits: ONE });
    let Some(left) = clip_edge::<N>(whole, dx.negated(), minus::<N>(a.x, min.x)) else {
        return None;
    };
    let Some(right) = clip_edge::<N>(left, dx, minus::<N>(max.x, a.x)) else {
        return None;
    };
    let Some(bottom) = clip_edge::<N>(right, dy.negated(), minus::<N>(a.y, min.y)) else {
        return None;
    };
    let Some((t0, t1)) = clip_edge::<N>(bottom, dy, minus::<N>(max.y, a.y)) else {
        return None;
    };
    Some(
        ClippedSegment {
            start: Point2 {
                x: plus::<N>(a.x, times::<N>(t0, dx)),
                y: plus::<N>(a.y, times::<N>(t0, dy)),
            },
            end: Point2 {
                x: plus::<N>(a.x, times::<N>(t1, dx)),
                y: plus::<N>(a.y, times::<N>(t1, dy)),
            },
            end_clipped: t1.lt(F64 { bits: ONE }),
        },
    )
}

/// Clipping to an edge only shortens a segment, and leaves a start that is not
/// behind its end.
pub proof fn law_narrowing_shortens(span: (F64, F64), p: F64, q: F64, r: F64)
    requires
        span.0.le(span.1),
        narrowed(span, p, q, r) is Some,
    ensures
        ({
            let (t0, t1) = narrowed(span, p, q, r)->0;
            span.0.le(t0) && t0.le(t1) && t1.le(span.1)
        }),
{
}

/// What remains of a segment in a box lies between its two ends, whatever the
/// arithmetic.
pub proof fn law_clipped_span_is_within_segment<N: Numerics>(
    a: Point2,
    dx: F64,
    dy: F64,
    min: Point2,
    max: Point2,
)
    requires
        box_span::<N>(a, dx, dy, min, max) is Some,
    ensures
        ({
            let (t0, t1) = box_span::<N>(a, dx, dy, min, max)->0;
            &&& (F64 { bits: 0 }).le(t0)
            &&& t0.le(t1)
            &&& t1.le(F64 { bits: ONE })
        }),
{
}

/// The edge with direction component `p` and start distance `q` is met exactly: a
/// component that counts as zero is zero, and the quotient is exact.
pub open spec fn edge_is_exact<N: Numerics>(p: F64, q: F64) -> bool {
    &&& p.is_finite()
    &&& q.is_finite()
    &&& p.absolute().lt(F64 { bits: EPSILON }) ==> p.units() == 0
    &&& !p.absolute().lt(F64 { bits: EPSILON }) ==> quotient::<N>(q, p).is_finite() && quotient::<
        N,
    >(q, p).units() * p.units() == unit() * q.units()
}

/// The difference of two values is exact.
pub open spec fn difference_is_exact<N: Numerics>(a: F64, b: F64) -> bool {
    difference::<N>(a, b).is_finite() && difference::<N>(a, b).units() == a.units() - b.units()
}

/// The segment `a → b` is clipped to the box `[min, max]` without rounding.
pub open spec fn clips_exactly<N: Numerics>(
    a: Point2,
    b: Point2,
    min: Point2,
    max: Point2,
) -> bool {
    let dx = difference::<N>(b.x, a.x);
    let dy = difference::<N>(b.y, a.y);
    &&& a.is_finite() && b.is_finite() && min.is_finite() && max.is_finite()
    &&& difference_is_exact::<N>(b.x, a.x)
    &&& difference_is_exact::<N>(b.y, a.y)
    &&& difference_is_exact::<N>(a.x, min.x)
    &&& difference_is_exact::<N>(max.x, a.x)
    &&& difference_is_exact::<N>(a.y, min.y)
    &&& difference_is_exact::<N>(max.y, a.y)
    &&& edge_is_exact::<N>(dx.negated(), difference::<N>(a.x, min.x))
    &&& edge_is_exact::<N>(dx, difference::<N>(max.x, a.x))
    &&& edge_is_exact::<N>(dy.negated(), difference::<N>(a.y, min.y))
    &&& edge_is_exact::<N>(dy, difference::<N>(max.y, a.y))
}

/// The point of the segment `a → b` at parameter `t`, in units, lies in the box: the
/// coordinates are taken times one, so that nothing is divided.
pub open spec fn lies_in_box(a: Point2, b: Point2, min: Point2, max: Point2, t: int) -> bool {
    let x = unit() * a.x.units() + t * (b.x.units() - a.x.units());
    let y = unit() * a.y.units() + t * (b.y.units() - a.y.units());
    &&& unit() * min.x.units() <= x <= unit() * max.x.units()
    &&& unit() * min.y.units() <= y <= unit() * max.y.units()
}

/// A parameter lies in a span.
pub open spec fn in_span(span: Option<(F64, F64)>, t: int) -> bool {
    span matches Some((t0, t1)) && t0.units() <= t <= t1.units()
}

/// A span of finite parameters.
pub open spec fn finite_span(span: Option<(F64, F64)>) -> bool {
    span matches Some((t0, t1)) ==> t0.is_finite() && t1.is_finite() && t0.units() <= t1.units()
}

/// Narrowing by an exact edge keeps exactly the parameters on its inner side.
proof fn lemma_narrowed_exactly<N: Numerics>(span: Option<(F64, F64)>, p: F64, q: F64, t: int)
    requires
        finite_span(span),
        edge_is_exact::<N>(p, q),
    ensures
        finite_span(narrowed_by::<N>(span, p, q)),
        in_span(narrowed_by::<N>(span, p, q), t) <==> in_span(span, t) && t * p.units() <= unit()
            * q.units(),
{
    lemma_units_of_constants();
    let zero = F64 { bits: 0 };
    let r = quotient::<N>(q, p);
    law_order_is_value_order(q, zero);
    law_order_is_value_order(p, zero);
    match span {
        Some((t0, t1)) => {
            if p.absolute().lt(F64 { bits: EPSILON }) {
                assert(t * 0 == 0) by (nonlinear_arith);
                assert(0 <= unit() * q.units() <==> 0 <= q.units()) by (nonlinear_arith)
                    requires
                        unit() > 0,
                ;
            } else {
                law_order_is_value_order(t1, r);
                law_order_is_value_order(t0, r);
                law_order_is_value_order(r, t0);
                law_order_is_value_order(r, t1);
                let (pu, ru) = (p.units(), r.units());
                lemma_nonzero_direction(p);
                if pu < 0 {
                    assert(t * pu <= ru * pu <==> ru <= t) by (nonlinear_arith)
                        requires
                            pu < 0,
                    ;
                } else {
                    assert(t * pu <= ru * pu <==> t <= ru) by (nonlinear_arith)
                        requires
                            pu > 0,
                    ;
                }
            }
        },
        None => {},
    }
}

/// A direction component that does not count as zero is not zero.
proof fn lemma_nonzero_direction(p: F64)
    requires
        p.is_finite(),
        !p.absolute().lt(F64 { bits: EPSILON }),
    ensures
        p.units() != 0,
{
    let zero = F64 { bits: 0 };
    lemma_units_of_constants();
    law_order_is_value_order(p, zero);
    law_order_is_value_order(zero, p);
}

/// Without rounding, what is kept of a segment is exactly what lies in the box: a point
/// of the segment lies in the box if and only if its parameter is in the span that is
/// kept. Nothing is kept if and only if no point lies in the box, and the end counts as
/// clipped if and only if the target lies outside.
pub proof fn law_clipping_keeps_what_lies_in_the_box<N: Numerics>(
    a: Point2,
    b: Point2,
    min: Point2,
    max: Point2,
)
    requires
        clips_exactly::<N>(a, b, min, max),
    ensures
        ({
            let dx = difference::<N>(b.x, a.x);
            let dy = difference::<N>(b.y, a.y);
            let span = box_span::<N>(a, dx, dy, min, max);
            &&& forall|t: int|
                0 <= t <= unit() ==> (#[trigger] lies_in_box(a, b, min, max, t) <==> in_span(
                    span,
                    t,
                ))
            &&& clipped::<N>(a, b, min, max) is None <==> forall|t: int|
                0 <= t <= unit() ==> !#[trigger] lies_in_box(a, b, min, max, t)
            &&& clipped::<N>(a, b, min, max) matches Some(seg) ==> (seg.end_clipped
                <==> !lies_in_box(a, b, min, max, unit()))
        }),
{
    let dx = difference::<N>(b.x, a.x);
    let dy = difference::<N>(b.y, a.y);
    let span = box_span::<N>(a, dx, dy, min, max);
    lemma_units_of_constants();
    assert forall|t: int| 0 <= t <= unit() implies (#[trigger] lies_in_box(a, b, min, max, t)
        <==> in_span(span, t)) by {
        lemma_span_at::<N>(a, b, min, max, t);
    }
    lemma_span_at::<N>(a, b, min, max, 0);
    match span {
        Some((t0, t1)) => {
            assert(in_span(span, t0.units()));
            lemma_span_at::<N>(a, b, min, max, t0.units());
            lemma_span_at::<N>(a, b, min, max, t1.units());
            assert(lies_in_box(a, b, min, max, t0.units()));
            assert(lies_in_box(a, b, min, max, unit()) <==> in_span(span, unit()));
            law_order_is_value_order(t1, F64 { bits: ONE });
        },
        None => {},
    }
}

/// The span at one parameter, and the range of the span.
pub proof fn lemma_span_at<N: Numerics>(a: Point2, b: Point2, min: Point2, max: Point2, t: int)
    requires
        clips_exactly::<N>(a, b, min, max),
    ensures
        ({
            let dx = difference::<N>(b.x, a.x);
            let dy = difference::<N>(b.y, a.y);
            let span = box_span::<N>(a, dx, dy, min, max);
            &&& in_span(span, t) <==> 0 <= t <= unit() && lies_in_box(a, b, min, max, t)
            &&& finite_span(span)
        }),
{
    let dx = difference::<N>(b.x, a.x);
    let dy = difference::<N>(b.y, a.y);
    let whole = Some((F64 { bits: 0 }, F64 { bits: ONE }));
    let left = narrowed_by::<N>(whole, dx.negated(), difference::<N>(a.x, min.x));
    let right = narrowed_by::<N>(left, dx, difference::<N>(max.x, a.x));
    let bottom = narrowed_by::<N>(right, dy.negated(), difference::<N>(a.y, min.y));
    lemma_units_of_constants();
    lemma_units_negated(dx);
    lemma_units_negated(dy);
    lemma_narrowed_exactly::<N>(whole, dx.negated(), difference::<N>(a.x, min.x), t);
    lemma_narrowed_exactly::<N>(left, dx, difference::<N>(max.x, a.x), t);
    lemma_narrowed_exactly::<N>(right, dy.negated(), difference::<N>(a.y, min.y), t);
    lemma_narrowed_exactly::<N>(bottom, dy, difference::<N>(max.y, a.y), t);
    let (ux, uy) = (dx.units(), dy.units());
    assert(t * (-ux) == -(t * ux) && t * (-uy) == -(t * uy)) by (nonlinear_arith);
    assert(unit() * (a.x.units() - min.x.units()) == unit() * a.x.units() - unit() * min.x.units())
        by (nonlinear_arith);
    assert(unit() * (max.x.units() - a.x.units()) == unit() * max.x.units() - unit() * a.x.units())
        by (nonlinear_arith);
    assert(unit() * (a.y.units() - min.y.units()) == unit() * a.y.units() - unit() * min.y.units())
        by (nonlinear_arith);
    assert(unit() * (max.y.units() - a.y.units()) == unit() * max.y.units() - unit() * a.y.units())
        by (nonlinear_arith);
}

/// The point of the segment `a → b` at parameter `t` is computed without rounding.
pub open spec fn is_exactly_along(p: Point2, a: Point2, b: Point2, t: F64) -> bool {
    &&& p.is_finite()
    &&& unit() * p.x.units() == unit() * a.x.units() + t.units() * (b.x.units() - a.x.units())
    &&& unit() * p.y.units() == unit() * a.y.units() + t.units() * (b.y.units() - a.y.units())
}

/// `p` lies in the box `[min, max]`.
pub open spec fn is_in_box(p: Point2, min: Point2, max: Point2) -> bool {
    min.x.le(p.x) && p.x.le(max.x) && min.y.le(p.y) && p.y.le(max.y)
}

/// Without rounding, both ends of what is kept lie in the box.
pub proof fn law_clipped_ends_lie_in_the_box<N: Numerics>(
    a: Point2,
    b: Point2,
    min: Point2,
    max: Point2,
    seg: ClippedSegment,
    t0: F64,
    t1: F64,
)
    requires
        clips_exactly::<N>(a, b, min, max),
        clipped::<N>(a, b, min, max) == Some(seg),
        box_span::<N>(
            a,
            difference::<N>(b.x, a.x),
            difference::<N>(b.y, a.y),
            min,
            max,
        ) == Some((t0, t1)),
        is_exactly_along(seg.start, a, b, t0),
        is_exactly_along(seg.end, a, b, t1),
    ensures
        is_in_box(seg.start, min, max),
        is_in_box(seg.end, min, max),
{
    lemma_span_at::<N>(a, b, min, max, t0.units());
    lemma_span_at::<N>(a, b, min, max, t1.units());
    lemma_in_box(a, b, min, max, seg.start, t0);
    lemma_in_box(a, b, min, max, seg.end, t1);
}

/// A point at a parameter in the box lies in the box.
proof fn lemma_in_box(a: Point2, b: Point2, min: Point2, max: Point2, p: Point2, t: F64)
    requires
        min.is_finite(),
        max.is_finite(),
        is_exactly_along(p, a, b, t),
        lies_in_box(a, b, min, max, t.units()),
    ensures
        is_in_box(p, min, max),
{
    lemma_units_of_constants();
    lemma_divided_order(min.x.units(), p.x.units());
    lemma_divided_order(p.x.units(), max.x.units());
    lemma_divided_order(min.y.units(), p.y.units());
    lemma_divided_order(p.y.units(), max.y.units());
    law_order_is_value_order(min.x, p.x);
    law_order_is_value_order(p.x, max.x);
    law_order_is_value_order(min.y, p.y);
    law_order_is_value_order(p.y, max.y);
}

/// Numbers are ordered as their multiples are.
proof fn lemma_divided_order(x: int, y: int)
    ensures
        unit() * x <= unit() * y ==> x <= y,
{
    lemma_units_of_constants();
    let u = unit();
    assert(u * x <= u * y ==> x <= y) by (nonlinear_arith)
        requires
            u > 0,
    ;
}

} // verus!
