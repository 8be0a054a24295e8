//! What a likelihood field says of a point, and how it is read between cells.

use vstd::prelude::*;

use crate::accuracy::{
    divides_exactly, lemma_divided_bound, lemma_product_admitted, near, subtracts_exactly, Accuracy,
};
use crate::convert::{floored, lemma_floor_of_value};
use crate::error::SlamError;
use crate::float::{lemma_units_of_constants, lemma_units_of_numbers, unit, F32, F64};
use crate::grid::cellmath::{cell_of, inside};
use crate::grid::{lemma_index_in_grid, HALF, ONE32};
use crate::matcher::float_of_count;
use crate::matcher::likelihood::{
    blocks, extent, field_of, lays_out_exactly, likelihood, mixed, pooled, raster_side, sharpness,
    FieldModel, TWO32,
};
use crate::numerics::{
    ceil_of, difference, difference32, exp_of32, float_of, floor_of, narrow_of, product, product32,
    quotient, quotient32, sum, sum32, Numerics,
};
use crate::pose::Point2;

verus! {

// ---- Likelihood ----

/// Products with something positive and exponentials keep the order in single precision,
/// and the negated square falls.
pub open spec fn keeps_order_of_squares<N: Numerics>() -> bool {
    let zero = F32 { bits: 0 };
    &&& forall|a: F32, b: F32, k: F32|
        #![trigger product32::<N>(a, k), product32::<N>(b, k)]
        a.le(b) && zero.lt(k) && k.is_finite() ==> product32::<N>(a, k).le(product32::<N>(b, k))
    &&& forall|a: F32, b: F32|
        #![trigger product32::<N>(a.negated(), a), product32::<N>(b.negated(), b)]
        zero.le(a) && a.le(b) ==> product32::<N>(b.negated(), b).le(product32::<N>(a.negated(), a))
    &&& forall|a: F32, k: F32|
        #![trigger product32::<N>(a, k)]
        zero.le(a) && zero.lt(k) && k.is_finite() ==> zero.le(product32::<N>(a, k))
    &&& forall|a: F32, b: F32|
        #![trigger exp_of32::<N>(a), exp_of32::<N>(b)]
        a.le(b) ==> exp_of32::<N>(a).le(exp_of32::<N>(b))
}

/// The likelihood falls with the distance.
pub proof fn law_likelihood_falls_with_distance<N: Numerics>(
    a: F32,
    b: F32,
    resolution: F32,
    sharp: F32,
)
    requires
        keeps_order_of_squares::<N>(),
        (F32 { bits: 0 }).le(a),
        a.le(b),
        (F32 { bits: 0 }).lt(resolution) && resolution.is_finite(),
        (F32 { bits: 0 }).lt(sharp) && sharp.is_finite(),
    ensures
        likelihood::<N>(b, resolution, sharp).le(likelihood::<N>(a, resolution, sharp)),
{
    let (d, f) = (product32::<N>(a, resolution), product32::<N>(b, resolution));
    assert((F32 { bits: 0 }).le(d) && d.le(f));
    let (p, q) = (product32::<N>(d.negated(), d), product32::<N>(f.negated(), f));
    assert(q.le(p));
    assert(product32::<N>(q, sharp).le(product32::<N>(p, sharp)));
}

/// Where the operations on it are exact, the likelihood at no distance is one.
pub proof fn law_likelihood_is_one_at_no_distance<N: Numerics>(resolution: F32, sharp: F32)
    requires
        product32::<N>(F32 { bits: 0 }, resolution) == (F32 { bits: 0 }),
        product32::<N>((F32 { bits: 0 }).negated(), F32 { bits: 0 }) == (F32 { bits: 0 }).negated(),
        product32::<N>((F32 { bits: 0 }).negated(), sharp) == (F32 { bits: 0 }).negated(),
        exp_of32::<N>((F32 { bits: 0 }).negated()) == (F32 { bits: ONE32 }),
    ensures
        likelihood::<N>(F32 { bits: 0 }, resolution, sharp) == (F32 { bits: ONE32 }),
{
}

/// The likelihood one smoothing width away is the exponential of minus one half, where
/// the operations on the way are exact: the width squared cancels against the sharpness.
pub proof fn law_smoothing_width_is_the_deviation<N: Numerics>(
    sigma_m: F64,
    resolution: F32,
    cells: F32,
    twice: F32,
    square: F32,
)
    requires
        product32::<N>(cells, resolution) == narrow_of::<N>(sigma_m),
        product32::<N>(F32 { bits: TWO32 }, narrow_of::<N>(sigma_m)) == twice,
        product32::<N>(twice, narrow_of::<N>(sigma_m)) == square,
        product32::<N>(
            product32::<N>(narrow_of::<N>(sigma_m).negated(), narrow_of::<N>(sigma_m)),
            quotient32::<N>(F32 { bits: ONE32 }, square),
        ) == (F32 { bits: 0x3f00_0000 }).negated(),
    ensures
        likelihood::<N>(cells, resolution, sharpness::<N>(sigma_m)) == exp_of32::<N>(
            (F32 { bits: 0x3f00_0000 }).negated(),
        ),
{
}

// ---- Reading between cells ----

/// Coordinates are measured in cells without rounding.
pub open spec fn measures_exactly<N: Numerics>(p: F64, origin: F64, resolution: F64) -> bool {
    let d = difference::<N>(p, origin);
    let u = quotient::<N>(d, resolution);
    &&& resolution.units() > 0
    &&& subtracts_exactly::<N>(p, origin)
    &&& divides_exactly::<N>(d, resolution)
    &&& subtracts_exactly::<N>(u, F64 { bits: HALF })
}

/// How far `g` is beyond the whole number below it.
pub open spec fn beyond_whole<N: Numerics>(g: F64) -> F32 {
    narrow_of::<N>(difference::<N>(g, floor_of::<N>(g)))
}

/// A whole number is not beyond itself and nothing is by more than one; something mixed
/// in by no part changes nothing, and what is mixed of likelihoods is one.
pub open spec fn mixes_plainly<N: Numerics>() -> bool {
    let zero = F32 { bits: 0 };
    &&& forall|g: F64|
        g.is_finite() ==> (#[trigger] beyond_whole::<N>(g)).bits <= ONE32 && (g.units() % unit()
            == 0 ==> beyond_whole::<N>(g) == zero)
    &&& forall|a: F32, b: F32|
        a.bits <= ONE32 && b.bits <= ONE32 ==> sum32::<N>(
            a,
            product32::<N>(#[trigger] difference32::<N>(b, a), zero),
        ) == a
    &&& forall|a: F32, b: F32, t: F32|
        a.bits <= ONE32 && b.bits <= ONE32 && t.bits <= ONE32 ==> sum32::<N>(
            a,
            #[trigger] product32::<N>(difference32::<N>(b, a), t),
        ).bits <= ONE32
}

/// All likelihoods lie from 0 to 1.
pub open spec fn holds_likelihoods(field: FieldModel) -> bool {
    forall|i: int| 0 <= i < field.values.len() ==> (#[trigger] field.values[i]).bits <= ONE32
}

/// `p` lies at the centre of cell `i` of its axis, or between that and the next centre.
pub open spec fn lies_from_centre(p: F64, origin: F64, resolution: F64, i: int) -> bool {
    let (d, r) = (p.units() - origin.units(), resolution.units());
    (2 * i + 1) * r <= 2 * d < (2 * i + 3) * r
}

/// `g` is how many cells `p` is away from the first centre.
pub open spec fn counts_from_centre(p: F64, origin: F64, resolution: F64, g: F64) -> bool {
    let (d, r) = (p.units() - origin.units(), resolution.units());
    g.is_finite() && 2 * (g.units() * r) == unit() * (2 * d - r)
}

/// What is measured of a coordinate at or behind the centre of cell `i`.
proof fn lemma_measured<N: Numerics>(p: F64, origin: F64, resolution: F64, i: int)
    requires
        measures_exactly::<N>(p, origin, resolution),
        -0x10_0000_0000_0000 < i < 0x10_0000_0000_0000,
        lies_from_centre(p, origin, resolution, i),
    ensures
        ({
            let u = quotient::<N>(difference::<N>(p, origin), resolution);
            let g = difference::<N>(u, F64 { bits: HALF });
            let at = 2 * (p.units() - origin.units()) == (2 * i + 1) * resolution.units();
            &&& counts_from_centre(p, origin, resolution, g)
            &&& floored(u) == Some(i as i64) || floored(u) == Some((i + 1) as i64)
            &&& floored(g) == Some(i as i64)
            &&& at ==> floored(u) == Some(i as i64) && g.units() % unit() == 0
        }),
{
    lemma_units_of_constants();
    lemma_units_of_numbers();
    let d = difference::<N>(p, origin).units();
    let u = quotient::<N>(difference::<N>(p, origin), resolution);
    let g = difference::<N>(u, F64 { bits: HALF });
    let (one, r, x) = (unit(), resolution.units(), u.units());
    assert((2 * i + 1) * one <= 2 * x && 2 * x < (2 * i + 3) * one) by (nonlinear_arith)
        requires
            x * r == one * d,
            (2 * i + 1) * r <= 2 * d,
            2 * d < (2 * i + 3) * r,
            r > 0,
            one > 0,
    ;
    assert((2 * i + 1) * one == 2 * (i * one) + one && (2 * i + 3) * one == 2 * (i * one) + 3 * one)
        by (nonlinear_arith);
    let y = g.units();
    assert(2 * (y * r) == one * (2 * d - r)) by (nonlinear_arith)
        requires
            x * r == one * d,
            2 * y == 2 * x - one,
    ;
    lemma_floor_of_value(g, i);
    assert((i + 1) * one == i * one + one) by (nonlinear_arith);
    if x < i * one + one {
        lemma_floor_of_value(u, i);
    } else {
        lemma_floor_of_value(u, i + 1);
    }
    if 2 * d == (2 * i + 1) * r {
        assert(2 * x == (2 * i + 1) * one) by (nonlinear_arith)
            requires
                x * r == one * d,
                2 * d == (2 * i + 1) * r,
                r > 0,
        ;
        assert(y == i * one);
        vstd::arithmetic::div_mod::lemma_fundamental_div_mod_converse(y, one, i, 0);
    }
}

/// A sample is a likelihood.
proof fn lemma_sample_is_likelihood(field: FieldModel, cell: (i64, i64))
    requires
        field.wf(),
        holds_likelihoods(field),
    ensures
        field.sample(cell).bits <= ONE32,
        inside(cell, field.width, field.height) ==> field.sample(cell) == field.values[cell.1
            * field.width + cell.0],
{
    if inside(cell, field.width, field.height) {
        lemma_index_in_grid(
            cell.0 as int,
            cell.1 as int,
            field.width as int,
            field.height as int,
        );
    }
}

/// At the centre of a cell, both lookups read the value of that cell.
pub proof fn law_lookups_agree_at_centres<N: Numerics>(
    field: FieldModel,
    p: Point2,
    cell: (i64, i64),
)
    requires
        field.wf(),
        holds_likelihoods(field),
        mixes_plainly::<N>(),
        measures_exactly::<N>(p.x, field.origin.x, field.resolution_m),
        measures_exactly::<N>(p.y, field.origin.y, field.resolution_m),
        inside(cell, field.width, field.height),
        cell.0 < 0x10_0000_0000_0000,
        cell.1 < 0x10_0000_0000_0000,
        2 * (p.x.units() - field.origin.x.units()) == (2 * cell.0 + 1)
            * field.resolution_m.units(),
        2 * (p.y.units() - field.origin.y.units()) == (2 * cell.1 + 1)
            * field.resolution_m.units(),
    ensures
        field.smooth::<N>(p) == field.values[cell.1 * field.width + cell.0],
        field.nearest::<N>(p) == field.values[cell.1 * field.width + cell.0],
{
    let (x, y) = (cell.0 as int, cell.1 as int);
    let r = field.resolution_m.units();
    assert((2 * x + 3) * r == (2 * x + 1) * r + 2 * r && (2 * y + 3) * r == (2 * y + 1) * r + 2 * r)
        by (nonlinear_arith);
    lemma_measured::<N>(p.x, field.origin.x, field.resolution_m, x);
    lemma_measured::<N>(p.y, field.origin.y, field.resolution_m, y);
    let (right, up) = (((x + 1) as i64, cell.1), (cell.0, (y + 1) as i64));
    let across = ((x + 1) as i64, (y + 1) as i64);
    lemma_sample_is_likelihood(field, cell);
    lemma_sample_is_likelihood(field, right);
    lemma_sample_is_likelihood(field, up);
    lemma_sample_is_likelihood(field, across);
    let zero = F32 { bits: 0 };
    let half = F64 { bits: HALF };
    let gx = difference::<N>(
        quotient::<N>(difference::<N>(p.x, field.origin.x), field.resolution_m),
        half,
    );
    let gy = difference::<N>(
        quotient::<N>(difference::<N>(p.y, field.origin.y), field.resolution_m),
        half,
    );
    assert(beyond_whole::<N>(gx) == zero && beyond_whole::<N>(gy) == zero);
    assert(mixed::<N>(field.sample(cell), field.sample(right), zero) == field.sample(cell));
    assert(mixed::<N>(field.sample(up), field.sample(across), zero) == field.sample(up));
}

/// In a row of cell centres, a lookup mixes the next cell into this one by the part of the
/// way to it.
pub proof fn law_lookup_mixes_along_rows<N: Numerics>(field: FieldModel, p: Point2, cell: (i64, i64))
    requires
        field.wf(),
        holds_likelihoods(field),
        mixes_plainly::<N>(),
        measures_exactly::<N>(p.x, field.origin.x, field.resolution_m),
        measures_exactly::<N>(p.y, field.origin.y, field.resolution_m),
        inside(cell, field.width, field.height),
        cell.0 + 1 < field.width,
        cell.0 < 0x10_0000_0000_0000,
        cell.1 < 0x10_0000_0000_0000,
        lies_from_centre(p.x, field.origin.x, field.resolution_m, cell.0 as int),
        2 * (p.y.units() - field.origin.y.units()) == (2 * cell.1 + 1)
            * field.resolution_m.units(),
    ensures
        exists|g: F64|
            counts_from_centre(p.x, field.origin.x, field.resolution_m, g) && ({
                let here = field.values[cell.1 * field.width + cell.0];
                let right = field.values[cell.1 * field.width + cell.0 + 1];
                field.smooth::<N>(p) == sum32::<N>(
                    here,
                    product32::<N>(
                        difference32::<N>(right, here),
                        #[trigger] beyond_whole::<N>(g),
                    ),
                )
            }),
{
    let (x, y) = (cell.0 as int, cell.1 as int);
    let r = field.resolution_m.units();
    assert((2 * y + 3) * r == (2 * y + 1) * r + 2 * r) by (nonlinear_arith);
    lemma_measured::<N>(p.x, field.origin.x, field.resolution_m, x);
    lemma_measured::<N>(p.y, field.origin.y, field.resolution_m, y);
    let (right, up) = (((x + 1) as i64, cell.1), (cell.0, (y + 1) as i64));
    let across = ((x + 1) as i64, (y + 1) as i64);
    lemma_sample_is_likelihood(field, cell);
    lemma_sample_is_likelihood(field, right);
    lemma_sample_is_likelihood(field, up);
    lemma_sample_is_likelihood(field, across);
    let half = F64 { bits: HALF };
    let gx = difference::<N>(
        quotient::<N>(difference::<N>(p.x, field.origin.x), field.resolution_m),
        half,
    );
    let gy = difference::<N>(
        quotient::<N>(difference::<N>(p.y, field.origin.y), field.resolution_m),
        half,
    );
    let f = beyond_whole::<N>(gx);
    assert(beyond_whole::<N>(gy) == (F32 { bits: 0 }));
    let lower = mixed::<N>(field.sample(cell), field.sample(right), f);
    let upper = mixed::<N>(field.sample(up), field.sample(across), f);
    assert(lower.bits <= ONE32 && upper.bits <= ONE32);
    assert(mixed::<N>(lower, upper, F32 { bits: 0 }) == lower);
    assert(field.smooth::<N>(p) == lower);
}

/// In a column of cell centres, a lookup mixes the cell above into this one by the part of
/// the way to it.
pub proof fn law_lookup_mixes_along_columns<N: Numerics>(
    field: FieldModel,
    p: Point2,
    cell: (i64, i64),
)
    requires
        field.wf(),
        holds_likelihoods(field),
        mixes_plainly::<N>(),
        measures_exactly::<N>(p.x, field.origin.x, field.resolution_m),
        measures_exactly::<N>(p.y, field.origin.y, field.resolution_m),
        inside(cell, field.width, field.height),
        cell.1 + 1 < field.height,
        cell.0 < 0x10_0000_0000_0000,
        cell.1 < 0x10_0000_0000_0000,
        2 * (p.x.units() - field.origin.x.units()) == (2 * cell.0 + 1)
            * field.resolution_m.units(),
        lies_from_centre(p.y, field.origin.y, field.resolution_m, cell.1 as int),
    ensures
        exists|g: F64|
            counts_from_centre(p.y, field.origin.y, field.resolution_m, g) && ({
                let here = field.values[cell.1 * field.width + cell.0];
                let up = field.values[(cell.1 + 1) * field.width + cell.0];
                field.smooth::<N>(p) == sum32::<N>(
                    here,
                    product32::<N>(difference32::<N>(up, here), #[trigger] beyond_whole::<N>(g)),
                )
            }),
{
    let (x, y) = (cell.0 as int, cell.1 as int);
    let r = field.resolution_m.units();
    assert((2 * x + 3) * r == (2 * x + 1) * r + 2 * r) by (nonlinear_arith);
    lemma_measured::<N>(p.x, field.origin.x, field.resolution_m, x);
    lemma_measured::<N>(p.y, field.origin.y, field.resolution_m, y);
    let (right, up) = (((x + 1) as i64, cell.1), (cell.0, (y + 1) as i64));
    let across = ((x + 1) as i64, (y + 1) as i64);
    lemma_sample_is_likelihood(field, cell);
    lemma_sample_is_likelihood(field, right);
    lemma_sample_is_likelihood(field, up);
    lemma_sample_is_likelihood(field, across);
    let half = F64 { bits: HALF };
    let gx = difference::<N>(
        quotient::<N>(difference::<N>(p.x, field.origin.x), field.resolution_m),
        half,
    );
    let gy = difference::<N>(
        quotient::<N>(difference::<N>(p.y, field.origin.y), field.resolution_m),
        half,
    );
    let zero = F32 { bits: 0 };
    assert(beyond_whole::<N>(gx) == zero);
    assert(mixed::<N>(field.sample(cell), field.sample(right), zero) == field.sample(cell));
    assert(mixed::<N>(field.sample(up), field.sample(across), zero) == field.sample(up));
    assert(field.smooth::<N>(p) == mixed::<N>(
        field.sample(cell),
        field.sample(up),
        beyond_whole::<N>(gy),
    ));
}

// ---- Pooling ----

/// A pooled field has the same corner, cells as many times larger as were pooled, up to
/// rounding, and as few as cover the field.
pub proof fn law_pooled_cells_cover_the_field<N: Numerics>(
    c: Accuracy,
    field: FieldModel,
    factor: usize,
)
    requires
        c.wf(),
        c.describes::<N>(),
        c.counts::<N>(),
        field.wf(),
        1 <= factor <= u32::MAX,
        c.is_factor(field.resolution_m),
        factor * unit() <= c.side,
    ensures
        ({
            let r = pooled::<N>(field, factor);
            &&& r.origin == field.origin
            &&& near(r.resolution_m.units(), factor * field.resolution_m.units(), c.e)
            &&& (r.width - 1) * factor < field.width <= r.width * factor
            &&& (r.height - 1) * factor < field.height <= r.height * factor
            &&& r.values.len() == r.width * r.height
        }),
{
    lemma_units_of_constants();
    let (u, a, k) = (unit(), field.resolution_m, factor as int);
    let x = a.units();
    let f = float_of_count::<N>(factor as u64);
    assert(f == float_of::<N>(factor as u32));
    assert(k * u >= 0) by (nonlinear_arith)
        requires
            k >= 0,
            u > 0,
    ;
    lemma_product_admitted::<N>(c, a, f);
    let r = product::<N>(a, f).units();
    assert(x * (k * u) == u * (k * x) && u * r - u * (k * x) == u * (r - k * x))
        by (nonlinear_arith);
    lemma_divided_bound(u, r - k * x, c.e);
    lemma_covering(field.width as int, k);
    lemma_covering(field.height as int, k);
}

/// As many blocks as cover a side.
proof fn lemma_covering(side: int, factor: int)
    requires
        side >= 1,
        factor >= 1,
    ensures
        1 <= blocks(side, factor) <= side,
        (blocks(side, factor) - 1) * factor < side,
        side <= blocks(side, factor) * factor,
{
    let q = (side - 1) / factor;
    assert(q * factor <= side - 1 && side - 1 < q * factor + factor && 0 <= q <= side - 1)
        by (nonlinear_arith)
        requires
            side >= 1,
            factor >= 1,
            q == (side - 1) / factor,
    ;
    assert((q + 1) * factor == q * factor + factor) by (nonlinear_arith);
}

// ---- The raster ----

/// One axis of a raster reaches from the margin below the least coordinate to the margin
/// beyond the greatest, with no cell to spare.
pub open spec fn spans_axis(
    low: F64,
    high: F64,
    margin_m: F64,
    resolution_m: F64,
    origin: F64,
    side: int,
) -> bool {
    let (m, r) = (margin_m.units(), resolution_m.units());
    &&& origin.units() == low.units() - m
    &&& high.units() + m <= origin.units() + side * r
    &&& origin.units() + (side - 1) * r < high.units() + m
}

/// A ceiling lies less than one above.
pub open spec fn ceils_exactly<N: Numerics>(
    low: F64,
    high: F64,
    margin_m: F64,
    resolution_m: F64,
) -> bool {
    let origin = difference::<N>(low, margin_m);
    let widths = quotient::<N>(difference::<N>(sum::<N>(high, margin_m), origin), resolution_m);
    ceil_of::<N>(widths).units() < widths.units() + unit()
}

/// Where nothing rounds in laying it out, the raster of a field reaches from the margin
/// below the finite reference points to the margin beyond them, with no row or column to
/// spare; it has no more cells than allowed, of the given resolution.
pub proof fn law_raster_reaches_the_margin<N: Numerics>(
    points: Seq<Point2>,
    resolution_m: F64,
    sigma_m: F64,
    margin_m: F64,
    max_cells: usize,
    field: FieldModel,
)
    requires
        field_of::<N>(points, resolution_m, sigma_m, margin_m, max_cells) == Ok::<
            FieldModel,
            SlamError,
        >(field),
        ({
            let (low, high) = extent(points, points.len());
            &&& low.x.units() <= high.x.units() && low.y.units() <= high.y.units()
            &&& lays_out_exactly::<N>(low.x, high.x, low.x, margin_m, resolution_m)
            &&& lays_out_exactly::<N>(low.y, high.y, low.y, margin_m, resolution_m)
            &&& ceils_exactly::<N>(low.x, high.x, margin_m, resolution_m)
            &&& ceils_exactly::<N>(low.y, high.y, margin_m, resolution_m)
        }),
    ensures
        ({
            let (low, high) = extent(points, points.len());
            &&& spans_axis(
                low.x,
                high.x,
                margin_m,
                resolution_m,
                field.origin.x,
                field.width as int,
            )
            &&& spans_axis(
                low.y,
                high.y,
                margin_m,
                resolution_m,
                field.origin.y,
                field.height as int,
            )
            &&& field.resolution_m == resolution_m
            &&& field.width * field.height <= max_cells
        }),
{
    let (low, high) = extent(points, points.len());
    lemma_axis_spans::<N>(low.x, high.x, margin_m, resolution_m, field.width);
    lemma_axis_spans::<N>(low.y, high.y, margin_m, resolution_m, field.height);
}

/// One axis of a raster.
proof fn lemma_axis_spans<N: Numerics>(
    low: F64,
    high: F64,
    margin_m: F64,
    resolution_m: F64,
    side: usize,
)
    requires
        low.units() <= high.units(),
        lays_out_exactly::<N>(low, high, low, margin_m, resolution_m),
        ceils_exactly::<N>(low, high, margin_m, resolution_m),
        raster_side::<N>(difference::<N>(low, margin_m), high, margin_m, resolution_m) == Some(
            side,
        ),
    ensures
        spans_axis(
            low,
            high,
            margin_m,
            resolution_m,
            difference::<N>(low, margin_m),
            side as int,
        ),
{
    lemma_units_of_constants();
    let origin = difference::<N>(low, margin_m);
    let span = difference::<N>(sum::<N>(high, margin_m), origin).units();
    let widths = quotient::<N>(
        difference::<N>(sum::<N>(high, margin_m), origin),
        resolution_m,
    ).units();
    let top = ceil_of::<N>(
        quotient::<N>(difference::<N>(sum::<N>(high, margin_m), origin), resolution_m),
    );
    let (u, res, count) = (unit(), resolution_m.units(), top.units());
    let n = count / u;
    vstd::arithmetic::div_mod::lemma_fundamental_div_mod(count, u);
    assert(u * span > 0) by (nonlinear_arith)
        requires
            u > 0,
            span > 0,
    ;
    assert(widths > 0) by (nonlinear_arith)
        requires
            res > 0,
            widths * res > 0,
    ;
    assert(n >= 1) by (nonlinear_arith)
        requires
            u > 0,
            count == u * n,
            count > 0,
    ;
    vstd::arithmetic::power2::lemma_pow2_adds(1074, 53);
    vstd::arithmetic::power2::lemma2_to64_rest();
    assert(n < 0x20_0000_0000_0000) by (nonlinear_arith)
        requires
            u > 0,
            count == u * n,
            count < u * 0x20_0000_0000_0000,
    ;
    assert(side == n);
    assert(span <= n * res && (n - 1) * res < span) by (nonlinear_arith)
        requires
            u > 0,
            res > 0,
            count == u * n,
            widths * res == u * span,
            widths <= count < widths + u,
    ;
}

/// Outside its raster a field says nothing.
pub proof fn law_field_says_nothing_outside<N: Numerics>(field: FieldModel, p: Point2)
    requires
        cell_of::<N>(p, field.origin, field.resolution_m) matches Some(cell) ==> !inside(
            cell,
            field.width,
            field.height,
        ),
    ensures
        field.nearest::<N>(p) == (F32 { bits: 0 }),
        field.smooth::<N>(p) == (F32 { bits: 0 }),
{
}

} // verus!
