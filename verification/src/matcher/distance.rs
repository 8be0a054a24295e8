//! What the chamfer distance transform measures.
//!
//! The transform adds rounded steps of 1 and √2. Under premises on that addition
//! which say how far it may round, every result lies between the distances to a
//! nearest seed that the smallest and the greatest steps give.

use vstd::prelude::*;

use crate::error::SlamError;
use crate::float::{F32, F64, INFINITE32};
use crate::grid::cellmath::{cell_of, inside};
use crate::grid::{index_of, lemma_index_in_grid, lemma_index_splits, ONE32};
use crate::matcher::likelihood::{
    backward, chamfered, field_of, forward, likelihood, neighbour, occupied, relaxed, seeded,
    sharpness, through, FieldModel, DIAGONAL,
};
use crate::numerics::{narrow_of, sum32, Numerics};
use crate::pose::Point2;

verus! {

/// A value that is not negative and no NaN.
pub open spec fn plain(v: F32) -> bool {
    v.bits <= INFINITE32
}

/// Adding a step to such a value gives such a value, and none that is less.
pub open spec fn climbs<N: Numerics>() -> bool {
    &&& forall|v: F32|
        plain(v) ==> plain(#[trigger] sum32::<N>(v, F32 { bits: ONE32 })) && v.bits <= sum32::<N>(
            v,
            F32 { bits: ONE32 },
        ).bits
    &&& forall|v: F32|
        plain(v) ==> plain(#[trigger] sum32::<N>(v, F32 { bits: DIAGONAL })) && v.bits
            <= sum32::<N>(v, F32 { bits: DIAGONAL }).bits
}

/// The length of a shortest way over `dx` columns and `dy` rows, in orthogonal steps
/// of length `w.0` and diagonal steps of length `w.1`.
pub open spec fn octile(dx: int, dy: int, w: (int, int)) -> int {
    let ax = if dx < 0 {
        -dx
    } else {
        dx
    };
    let ay = if dy < 0 {
        -dy
    } else {
        dy
    };
    if ax <= ay {
        (w.1 - w.0) * ax + w.0 * ay
    } else {
        (w.1 - w.0) * ay + w.0 * ax
    }
}

/// How an addition of steps rounds: in the scale `m`, a step adds no less than `low`
/// and no more than `high` (orthogonal, diagonal) to a value up to `limit`.
pub ghost struct Rounding {
    /// Value of a number in some unit.
    pub m: spec_fn(F32) -> int,
    /// Least lengths of an orthogonal and of a diagonal step.
    pub low: (int, int),
    /// Greatest lengths of an orthogonal and of a diagonal step.
    pub high: (int, int),
    /// The greatest value for which this holds.
    pub limit: int,
}

impl Rounding {
    /// The scale is that of the order of values, and a diagonal step is at least an
    /// orthogonal one and at most two.
    pub open spec fn wf(self) -> bool {
        &&& (self.m)(F32 { bits: 0 }) == 0
        &&& forall|a: F32, b: F32|
            #![trigger (self.m)(a), (self.m)(b)]
            a.bits < b.bits && b.bits < INFINITE32 ==> (self.m)(a) < (self.m)(b)
        &&& 0 < self.low.0
        &&& self.low.0 <= self.low.1
        &&& self.low.1 <= 2 * self.low.0
        &&& self.low.0 <= self.high.0
        &&& self.low.1 <= self.high.1
    }

    /// `N` rounds sums of steps so.
    pub open spec fn describes<N: Numerics>(self) -> bool {
        &&& forall|v: F32|
            v.bits < INFINITE32 && (self.m)(v) <= self.limit ==> {
                let s = #[trigger] sum32::<N>(v, F32 { bits: ONE32 });
                &&& s.bits < INFINITE32
                &&& (self.m)(v) + self.low.0 <= (self.m)(s) <= (self.m)(v) + self.high.0
            }
        &&& forall|v: F32|
            v.bits < INFINITE32 && (self.m)(v) <= self.limit ==> {
                let s = #[trigger] sum32::<N>(v, F32 { bits: DIAGONAL });
                &&& s.bits < INFINITE32
                &&& (self.m)(v) + self.low.1 <= (self.m)(s) <= (self.m)(v) + self.high.1
            }
    }

    /// No way within a raster is longer than the limit.
    pub open spec fn covers(self, width: int, height: int) -> bool {
        forall|dx: int, dy: int|
            -width < dx < width && -height < dy < height ==> #[trigger] octile(dx, dy, self.high)
                <= self.limit
    }
}

/// Distance 0 or infinite in every cell.
pub open spec fn is_seeding(dist: Seq<F32>) -> bool {
    forall|i: int|
        0 <= i < dist.len() ==> (#[trigger] dist[i]).bits == 0 || dist[i].bits == INFINITE32
}

/// The way from cell `s` to cell `t`.
pub open spec fn way(s: int, t: int, width: int, w: (int, int)) -> int {
    octile(t % width - s % width, t / width - s / width, w)
}

/// The weight of a step.
pub open spec fn weight(step: u32, w: (int, int)) -> int {
    if step == ONE32 {
        w.0
    } else {
        w.1
    }
}

/// Every value is plain.
spec fn all_plain(dist: Seq<F32>) -> bool {
    forall|i: int| 0 <= i < dist.len() ==> plain(#[trigger] dist[i])
}

// ---- One relaxation ----

/// A neighbour inside the raster has its own index, columns and rows.
proof fn lemma_neighbour(i: int, dx: int, dy: int, width: int, height: int)
    requires
        0 < width,
        0 <= i < width * height,
    ensures
        neighbour(i, dx, dy, width, height) matches Some(j) ==> {
            &&& 0 <= j < width * height
            &&& j % width == i % width + dx
            &&& j / width == i / width + dy
        },
{
    lemma_index_splits(i, width, height);
    let (x, y) = (i % width + dx, i / width + dy);
    if 0 <= x < width && 0 <= y < height {
        lemma_index_in_grid(x, y, width, height);
    }
}

/// A relaxation is no more than the way through each neighbour on its side, nor than
/// the old distance; it is one of these.
proof fn lemma_relaxed<N: Numerics>(dist: Seq<F32>, i: int, side: int, width: int, height: int)
    requires
        climbs::<N>(),
        0 < width,
        dist.len() == width * height,
        all_plain(dist),
        0 <= i < dist.len(),
        side == 1 || side == -1,
    ensures
        ({
            let r = relaxed::<N>(dist, i, side, width, height);
            &&& plain(r)
            &&& r.bits <= dist[i].bits
            &&& neighbour(i, side, 0, width, height) matches Some(j) ==> r.bits <= sum32::<N>(
                dist[j],
                F32 { bits: ONE32 },
            ).bits
            &&& neighbour(i, 0, side, width, height) matches Some(j) ==> r.bits <= sum32::<N>(
                dist[j],
                F32 { bits: ONE32 },
            ).bits
            &&& neighbour(i, side, side, width, height) matches Some(j) ==> r.bits <= sum32::<N>(
                dist[j],
                F32 { bits: DIAGONAL },
            ).bits
            &&& neighbour(i, -side, side, width, height) matches Some(j) ==> r.bits <= sum32::<N>(
                dist[j],
                F32 { bits: DIAGONAL },
            ).bits
            &&& r == dist[i] || comes_from::<N>(dist, i, side, 0, ONE32, width, height, r)
                || comes_from::<N>(dist, i, 0, side, ONE32, width, height, r)
                || comes_from::<N>(dist, i, side, side, DIAGONAL, width, height, r)
                || comes_from::<N>(dist, i, -side, side, DIAGONAL, width, height, r)
        }),
{
    lemma_neighbour(i, side, 0, width, height);
    lemma_neighbour(i, 0, side, width, height);
    lemma_neighbour(i, side, side, width, height);
    lemma_neighbour(i, -side, side, width, height);
    let d1 = through::<N>(dist, dist[i], i, side, 0, ONE32, width, height);
    let d2 = through::<N>(dist, d1, i, 0, side, ONE32, width, height);
    let d3 = through::<N>(dist, d2, i, side, side, DIAGONAL, width, height);
    let d4 = through::<N>(dist, d3, i, -side, side, DIAGONAL, width, height);
    lemma_through::<N>(dist, dist[i], i, side, 0, ONE32, width, height);
    lemma_through::<N>(dist, d1, i, 0, side, ONE32, width, height);
    lemma_through::<N>(dist, d2, i, side, side, DIAGONAL, width, height);
    lemma_through::<N>(dist, d3, i, -side, side, DIAGONAL, width, height);
}

/// `r` is the way through the neighbour at `(dx, dy)`.
spec fn comes_from<N: Numerics>(
    dist: Seq<F32>,
    i: int,
    dx: int,
    dy: int,
    step: u32,
    width: int,
    height: int,
    r: F32,
) -> bool {
    neighbour(i, dx, dy, width, height) matches Some(j) && r == sum32::<N>(
        dist[j],
        F32 { bits: step },
    )
}

/// A way through one neighbour is taken if it is shorter.
proof fn lemma_through<N: Numerics>(
    dist: Seq<F32>,
    d: F32,
    i: int,
    dx: int,
    dy: int,
    step: u32,
    width: int,
    height: int,
)
    requires
        climbs::<N>(),
        all_plain(dist),
        plain(d),
        step == ONE32 || step == DIAGONAL,
        neighbour(i, dx, dy, width, height) matches Some(j) ==> 0 <= j < dist.len(),
    ensures
        ({
            let r = through::<N>(dist, d, i, dx, dy, step, width, height);
            &&& plain(r)
            &&& r.bits <= d.bits
            &&& neighbour(i, dx, dy, width, height) matches Some(j) ==> r.bits <= sum32::<N>(
                dist[j],
                F32 { bits: step },
            ).bits
            &&& r == d || comes_from::<N>(dist, i, dx, dy, step, width, height, r)
        }),
{
    match neighbour(i, dx, dy, width, height) {
        Some(j) => {
            assert(plain(dist[j]));
            assert(plain(sum32::<N>(dist[j], F32 { bits: step })));
        },
        None => {},
    }
}

// ---- The passes ----

/// A forward pass keeps values plain, does not touch what is to come, and settles what
/// it has passed.
proof fn lemma_forward<N: Numerics>(dist: Seq<F32>, width: int, height: int, n: nat)
    requires
        climbs::<N>(),
        0 < width,
        dist.len() == width * height,
        all_plain(dist),
        n <= dist.len(),
    ensures
        forward::<N>(dist, width, height, n).len() == dist.len(),
        all_plain(forward::<N>(dist, width, height, n)),
        forall|j: int|
            n <= j < dist.len() ==> #[trigger] forward::<N>(dist, width, height, n)[j] == dist[j],
        forall|j: int|
            0 <= j < dist.len() ==> (#[trigger] forward::<N>(dist, width, height, n)[j]).bits
                <= dist[j].bits,
    decreases n,
{
    if n > 0 {
        let m = (n - 1) as nat;
        lemma_forward::<N>(dist, width, height, m);
        lemma_relaxed::<N>(forward::<N>(dist, width, height, m), m as int, -1, width, height);
    }
}

/// What a forward pass has passed stays.
proof fn lemma_forward_settles<N: Numerics>(
    dist: Seq<F32>,
    width: int,
    height: int,
    j: int,
    m: nat,
    n: nat,
)
    requires
        climbs::<N>(),
        0 < width,
        dist.len() == width * height,
        all_plain(dist),
        0 <= j < m <= n <= dist.len(),
    ensures
        forward::<N>(dist, width, height, n)[j] == forward::<N>(dist, width, height, m)[j],
    decreases n,
{
    if m < n {
        lemma_forward_settles::<N>(dist, width, height, j, m, (n - 1) as nat);
        lemma_forward::<N>(dist, width, height, (n - 1) as nat);
    }
}

/// A backward pass keeps values plain, does not touch what is to come, and lets no
/// value grow.
proof fn lemma_backward<N: Numerics>(dist: Seq<F32>, width: int, height: int, n: nat)
    requires
        climbs::<N>(),
        0 < width,
        dist.len() == width * height,
        all_plain(dist),
        n <= dist.len(),
    ensures
        backward::<N>(dist, width, height, n).len() == dist.len(),
        all_plain(backward::<N>(dist, width, height, n)),
        forall|j: int|
            0 <= j < dist.len() - n ==> #[trigger] backward::<N>(dist, width, height, n)[j]
                == dist[j],
        forall|j: int|
            0 <= j < dist.len() ==> (#[trigger] backward::<N>(dist, width, height, n)[j]).bits
                <= dist[j].bits,
    decreases n,
{
    if n > 0 {
        let m = (n - 1) as nat;
        lemma_backward::<N>(dist, width, height, m);
        lemma_relaxed::<N>(
            backward::<N>(dist, width, height, m),
            dist.len() - n,
            1,
            width,
            height,
        );
    }
}

/// What a backward pass has passed stays.
proof fn lemma_backward_settles<N: Numerics>(
    dist: Seq<F32>,
    width: int,
    height: int,
    j: int,
    m: nat,
    n: nat,
)
    requires
        climbs::<N>(),
        0 < width,
        dist.len() == width * height,
        all_plain(dist),
        m <= n <= dist.len(),
        dist.len() - m <= j < dist.len(),
    ensures
        backward::<N>(dist, width, height, n)[j] == backward::<N>(dist, width, height, m)[j],
    decreases n,
{
    if m < n {
        lemma_backward_settles::<N>(dist, width, height, j, m, (n - 1) as nat);
        lemma_backward::<N>(dist, width, height, (n - 1) as nat);
    }
}

// ---- No result is too large ----

/// A product with one more or one less.
proof fn lemma_product_steps(a: int, b: int)
    ensures
        a * (b + 1) == a * b + a,
        a * (b - 1) == a * b - a,
        a * 0 == 0,
{
    assert(a * (b + 1) == a * b + a) by (nonlinear_arith);
    assert(a * (b - 1) == a * b - a) by (nonlinear_arith);
}

/// The last step of a shortest way: diagonal while both directions remain, else
/// orthogonal.
proof fn lemma_last_step(dx: int, dy: int, w: (int, int))
    ensures
        dx == 0 && dy == 0 ==> octile(dx, dy, w) == 0,
        dx > 0 && dy > 0 ==> octile(dx, dy, w) == octile(dx - 1, dy - 1, w) + w.1,
        dx > 0 && dy < 0 ==> octile(dx, dy, w) == octile(dx - 1, dy + 1, w) + w.1,
        dx < 0 && dy > 0 ==> octile(dx, dy, w) == octile(dx + 1, dy - 1, w) + w.1,
        dx < 0 && dy < 0 ==> octile(dx, dy, w) == octile(dx + 1, dy + 1, w) + w.1,
        dx == 0 && dy > 0 ==> octile(dx, dy, w) == octile(dx, dy - 1, w) + w.0,
        dx == 0 && dy < 0 ==> octile(dx, dy, w) == octile(dx, dy + 1, w) + w.0,
        dx > 0 && dx > dy && dx > -dy ==> octile(dx, dy, w) == octile(dx - 1, dy, w) + w.0,
        dx < 0 && -dx > dy && -dx > -dy ==> octile(dx, dy, w) == octile(dx + 1, dy, w) + w.0,
{
    let ax = if dx < 0 {
        -dx
    } else {
        dx
    };
    let ay = if dy < 0 {
        -dy
    } else {
        dy
    };
    lemma_product_steps(w.1 - w.0, ax);
    lemma_product_steps(w.1 - w.0, ay);
    lemma_product_steps(w.0, ax);
    lemma_product_steps(w.0, ay);
}

/// Columns and rows of a cell, and of one before it.
proof fn lemma_comes_before(j: int, t: int, width: int, height: int)
    requires
        0 < width,
        0 <= t < width * height,
        0 <= j < width * height,
        j / width < t / width || (j / width == t / width && j % width < t % width),
    ensures
        j < t,
{
    lemma_index_splits(j, width, height);
    lemma_index_splits(t, width, height);
    if j / width < t / width {
        assert((j / width) * width + width <= (t / width) * width) by (nonlinear_arith)
            requires
                j / width + 1 <= t / width,
                0 < width,
        ;
    }
}

/// One step on from a cell within reach.
proof fn lemma_step_up(c: Rounding, v: F32, r: F32, s: F32, length: int, step: int)
    requires
        c.wf(),
        v.bits < INFINITE32,
        (c.m)(v) <= length,
        s.bits < INFINITE32,
        (c.m)(s) <= (c.m)(v) + step,
        r.bits <= s.bits,
    ensures
        r.bits < INFINITE32,
        (c.m)(r) <= length + step,
{
    if r.bits < s.bits {
        assert((c.m)(r) < (c.m)(s));
    } else {
        assert(r == s);
    }
}

/// The cell `t` lies right of or below `s` such that a forward pass leads there.
spec fn ahead(s: int, t: int, width: int) -> bool {
    let dx = t % width - s % width;
    let dy = t / width - s / width;
    dy >= 0 && (dx >= 0 || -dx <= dy)
}

/// After the forward pass no cell ahead of a seed is farther than its way.
proof fn lemma_forward_reaches<N: Numerics>(
    dist: Seq<F32>,
    width: int,
    height: int,
    c: Rounding,
    s: int,
    t: int,
)
    requires
        climbs::<N>(),
        c.wf(),
        c.describes::<N>(),
        c.covers(width, height),
        0 < width,
        dist.len() == width * height,
        all_plain(dist),
        0 <= s < dist.len(),
        dist[s].bits == 0,
        0 <= t < dist.len(),
        ahead(s, t, width),
    ensures
        forward::<N>(dist, width, height, dist.len())[t].bits < INFINITE32,
        (c.m)(forward::<N>(dist, width, height, dist.len())[t]) <= way(s, t, width, c.high),
    decreases t,
{
    let done = forward::<N>(dist, width, height, dist.len());
    let now = forward::<N>(dist, width, height, t as nat);
    lemma_forward::<N>(dist, width, height, dist.len());
    lemma_forward::<N>(dist, width, height, t as nat);
    lemma_forward_settles::<N>(dist, width, height, t, (t + 1) as nat, dist.len());
    lemma_relaxed::<N>(now, t, -1, width, height);
    lemma_index_splits(s, width, height);
    lemma_index_splits(t, width, height);
    let dx = t % width - s % width;
    let dy = t / width - s / width;
    lemma_last_step(dx, dy, c.high);
    assert(done[t] == relaxed::<N>(now, t, -1, width, height));
    if dx == 0 && dy == 0 {
        assert(s == t);
        assert(done[t] == F32 { bits: 0 });
    } else {
        let (px, py, step): (int, int, u32) = if dy > 0 && dx > 0 {
            (-1, -1, DIAGONAL)
        } else if dy > 0 && dx < 0 {
            (1, -1, DIAGONAL)
        } else if dy > 0 {
            (0, -1, ONE32)
        } else {
            (-1, 0, ONE32)
        };
        lemma_neighbour(t, px, py, width, height);
        let j = neighbour(t, px, py, width, height)->0;
        lemma_comes_before(j, t, width, height);
        lemma_forward_reaches::<N>(dist, width, height, c, s, j);
        lemma_forward_settles::<N>(dist, width, height, j, t as nat, dist.len());
        assert(now[j] == done[j]);
        assert(octile(dx + px, dy + py, c.high) <= c.limit);
        let sum = sum32::<N>(now[j], F32 { bits: step });
        lemma_step_up(
            c,
            now[j],
            done[t],
            sum,
            way(s, j, width, c.high),
            weight(step, c.high),
        );
    }
}

/// After both passes no cell is farther than its way from any seed.
proof fn lemma_backward_reaches<N: Numerics>(
    dist: Seq<F32>,
    width: int,
    height: int,
    c: Rounding,
    s: int,
    t: int,
)
    requires
        climbs::<N>(),
        c.wf(),
        c.describes::<N>(),
        c.covers(width, height),
        0 < width,
        dist.len() == width * height,
        all_plain(dist),
        0 <= s < dist.len(),
        dist[s].bits == 0,
        0 <= t < dist.len(),
    ensures
        chamfered::<N>(dist, width, height)[t].bits < INFINITE32,
        (c.m)(chamfered::<N>(dist, width, height)[t]) <= way(s, t, width, c.high),
    decreases dist.len() - t,
{
    let len = dist.len();
    let middle = forward::<N>(dist, width, height, len);
    lemma_forward::<N>(dist, width, height, len);
    let done = backward::<N>(middle, width, height, len);
    let passed = (len - 1 - t) as nat;
    let now = backward::<N>(middle, width, height, passed);
    lemma_backward::<N>(middle, width, height, len);
    lemma_backward::<N>(middle, width, height, passed);
    lemma_index_splits(s, width, height);
    lemma_index_splits(t, width, height);
    let dx = t % width - s % width;
    let dy = t / width - s / width;
    if ahead(s, t, width) {
        lemma_forward_reaches::<N>(dist, width, height, c, s, t);
        lemma_step_up(c, middle[t], done[t], middle[t], way(s, t, width, c.high), 0);
    } else {
        lemma_backward_settles::<N>(middle, width, height, t, (passed + 1) as nat, len);
        lemma_relaxed::<N>(now, t, 1, width, height);
        assert(done[t] == relaxed::<N>(now, t, 1, width, height));
        lemma_last_step(dx, dy, c.high);
        let (px, py, step): (int, int, u32) = if dy < 0 && dx < 0 {
            (1, 1, DIAGONAL)
        } else if dy < 0 && dx > 0 {
            (-1, 1, DIAGONAL)
        } else if dy < 0 {
            (0, 1, ONE32)
        } else {
            (1, 0, ONE32)
        };
        lemma_neighbour(t, px, py, width, height);
        let j = neighbour(t, px, py, width, height)->0;
        lemma_comes_before(t, j, width, height);
        lemma_backward_reaches::<N>(dist, width, height, c, s, j);
        lemma_backward_settles::<N>(middle, width, height, j, passed, len);
        assert(now[j] == done[j]);
        assert(octile(dx + px, dy + py, c.high) <= c.limit);
        let sum = sum32::<N>(now[j], F32 { bits: step });
        lemma_step_up(
            c,
            now[j],
            done[t],
            sum,
            way(s, j, width, c.high),
            weight(step, c.high),
        );
    }
}

// ---- No result is too small ----

/// One step changes a way by no more than its weight.
proof fn lemma_one_step(dx: int, dy: int, ex: int, ey: int, w: (int, int))
    requires
        0 < w.0 <= w.1 <= 2 * w.0,
        -1 <= ex <= 1,
        -1 <= ey <= 1,
    ensures
        octile(dx + ex, dy + ey, w) <= octile(dx, dy, w) + (if ex == 0 || ey == 0 {
            w.0
        } else {
            w.1
        }),
{
    let ax = if dx < 0 {
        -dx
    } else {
        dx
    };
    let ay = if dy < 0 {
        -dy
    } else {
        dy
    };
    lemma_product_steps(w.1 - w.0, ax);
    lemma_product_steps(w.1 - w.0, ay);
    lemma_product_steps(w.0, ax);
    lemma_product_steps(w.0, ay);
}

/// The value `v` of cell `t` is infinite, or at least the least way from some seed (or
/// beyond the limit).
spec fn explained(seeds: Seq<F32>, v: F32, t: int, width: int, c: Rounding) -> bool {
    v.bits == INFINITE32 || exists|s: int|
        0 <= s < seeds.len() && (#[trigger] seeds[s]).bits == 0 && (way(s, t, width, c.low) <= (
        c.m)(v) || c.limit < (c.m)(v))
}

/// Every value is explained.
spec fn all_explained(seeds: Seq<F32>, dist: Seq<F32>, width: int, c: Rounding) -> bool {
    forall|t: int| 0 <= t < dist.len() ==> explained(seeds, #[trigger] dist[t], t, width, c)
}

/// A way through an explained neighbour is explained.
proof fn lemma_explained_step<N: Numerics>(
    seeds: Seq<F32>,
    dist: Seq<F32>,
    i: int,
    dx: int,
    dy: int,
    step: u32,
    width: int,
    height: int,
    c: Rounding,
)
    requires
        climbs::<N>(),
        c.wf(),
        c.describes::<N>(),
        0 < width,
        dist.len() == width * height,
        all_plain(dist),
        all_explained(seeds, dist, width, c),
        0 <= i < dist.len(),
        (step == ONE32 && (dx == 0 || dy == 0)) || (step == DIAGONAL && dx != 0 && dy != 0),
        -1 <= dx <= 1,
        -1 <= dy <= 1,
        neighbour(i, dx, dy, width, height) is Some,
    ensures
        explained(
            seeds,
            sum32::<N>(
                dist[neighbour(i, dx, dy, width, height)->0],
                F32 { bits: step },
            ),
            i,
            width,
            c,
        ),
{
    lemma_neighbour(i, dx, dy, width, height);
    let j = neighbour(i, dx, dy, width, height)->0;
    let v = dist[j];
    let r = sum32::<N>(v, F32 { bits: step });
    assert(explained(seeds, dist[j], j, width, c));
    assert(plain(v));
    assert(plain(r) && v.bits <= r.bits);
    if r.bits != INFINITE32 {
        let s = choose|s: int|
            0 <= s < seeds.len() && (#[trigger] seeds[s]).bits == 0 && (way(s, j, width, c.low) <= (
            c.m)(v) || c.limit < (c.m)(v));
        if (c.m)(v) <= c.limit {
            lemma_one_step(
                j % width - s % width,
                j / width - s / width,
                -dx,
                -dy,
                c.low,
            );
            assert(way(s, i, width, c.low) <= (c.m)(r));
        } else {
            if v.bits < r.bits {
                assert((c.m)(v) < (c.m)(r));
            }
            assert(c.limit < (c.m)(r));
        }
        assert(seeds[s].bits == 0);
    }
}

/// A relaxation of explained values is explained.
proof fn lemma_explained_relaxation<N: Numerics>(
    seeds: Seq<F32>,
    dist: Seq<F32>,
    i: int,
    side: int,
    width: int,
    height: int,
    c: Rounding,
)
    requires
        climbs::<N>(),
        c.wf(),
        c.describes::<N>(),
        0 < width,
        dist.len() == width * height,
        all_plain(dist),
        all_explained(seeds, dist, width, c),
        0 <= i < dist.len(),
        side == 1 || side == -1,
    ensures
        explained(seeds, relaxed::<N>(dist, i, side, width, height), i, width, c),
{
    lemma_relaxed::<N>(dist, i, side, width, height);
    assert(explained(seeds, dist[i], i, width, c));
    if neighbour(i, side, 0, width, height) is Some {
        lemma_explained_step::<N>(seeds, dist, i, side, 0, ONE32, width, height, c);
    }
    if neighbour(i, 0, side, width, height) is Some {
        lemma_explained_step::<N>(seeds, dist, i, 0, side, ONE32, width, height, c);
    }
    if neighbour(i, side, side, width, height) is Some {
        lemma_explained_step::<N>(seeds, dist, i, side, side, DIAGONAL, width, height, c);
    }
    if neighbour(i, -side, side, width, height) is Some {
        lemma_explained_step::<N>(seeds, dist, i, -side, side, DIAGONAL, width, height, c);
    }
}

/// A forward pass keeps values explained.
proof fn lemma_forward_explained<N: Numerics>(
    seeds: Seq<F32>,
    dist: Seq<F32>,
    width: int,
    height: int,
    c: Rounding,
    n: nat,
)
    requires
        climbs::<N>(),
        c.wf(),
        c.describes::<N>(),
        0 < width,
        dist.len() == width * height,
        all_plain(dist),
        all_explained(seeds, dist, width, c),
        n <= dist.len(),
    ensures
        all_explained(seeds, forward::<N>(dist, width, height, n), width, c),
    decreases n,
{
    if n > 0 {
        let m = (n - 1) as nat;
        lemma_forward_explained::<N>(seeds, dist, width, height, c, m);
        lemma_forward::<N>(dist, width, height, m);
        lemma_explained_relaxation::<N>(
            seeds,
            forward::<N>(dist, width, height, m),
            m as int,
            -1,
            width,
            height,
            c,
        );
    }
}

/// A backward pass keeps values explained.
proof fn lemma_backward_explained<N: Numerics>(
    seeds: Seq<F32>,
    dist: Seq<F32>,
    width: int,
    height: int,
    c: Rounding,
    n: nat,
)
    requires
        climbs::<N>(),
        c.wf(),
        c.describes::<N>(),
        0 < width,
        dist.len() == width * height,
        all_plain(dist),
        all_explained(seeds, dist, width, c),
        n <= dist.len(),
    ensures
        all_explained(seeds, backward::<N>(dist, width, height, n), width, c),
    decreases n,
{
    if n > 0 {
        let m = (n - 1) as nat;
        lemma_backward_explained::<N>(seeds, dist, width, height, c, m);
        lemma_backward::<N>(dist, width, height, m);
        lemma_explained_relaxation::<N>(
            seeds,
            backward::<N>(dist, width, height, m),
            dist.len() - n,
            1,
            width,
            height,
            c,
        );
    }
}

// ---- Laws ----

/// Seeds stay at distance zero, whatever the rounding.
pub proof fn law_chamfer_keeps_seeds<N: Numerics>(
    dist: Seq<F32>,
    width: int,
    height: int,
    t: int,
)
    requires
        climbs::<N>(),
        0 < width,
        dist.len() == width * height,
        is_seeding(dist),
        0 <= t < dist.len(),
        dist[t].bits == 0,
    ensures
        chamfered::<N>(dist, width, height)[t] == (F32 { bits: 0 }),
        chamfered::<N>(dist, width, height).len() == dist.len(),
{
    assert(all_plain(dist));
    lemma_forward::<N>(dist, width, height, dist.len());
    lemma_backward::<N>(forward::<N>(dist, width, height, dist.len()), width, height, dist.len());
}

/// The transform measures the distance to a nearest seed: no result exceeds the way
/// from any seed in the greatest steps, and every result is at least the way from some
/// seed in the least steps. Without rounding (`low` and `high` alike) a result is thus
/// exactly the least way from a seed. A seed stays at zero, and without seeds every
/// distance stays infinite.
pub proof fn law_chamfer_measures_nearest_seed<N: Numerics>(
    dist: Seq<F32>,
    width: int,
    height: int,
    c: Rounding,
    t: int,
)
    requires
        climbs::<N>(),
        c.wf(),
        c.describes::<N>(),
        c.covers(width, height),
        0 < width,
        dist.len() == width * height,
        is_seeding(dist),
        0 <= t < dist.len(),
    ensures
        ({
            let r = chamfered::<N>(dist, width, height)[t];
            &&& dist[t].bits == 0 ==> r == (F32 { bits: 0 })
            &&& (forall|i: int| 0 <= i < dist.len() ==> (#[trigger] dist[i]).bits != 0)
                ==> r == (F32 { bits: INFINITE32 })
            &&& forall|s: int|
                0 <= s < dist.len() && (#[trigger] dist[s]).bits == 0 ==> r.bits < INFINITE32 && (
                c.m)(r) <= way(s, t, width, c.high)
            &&& (exists|s: int| 0 <= s < dist.len() && (#[trigger] dist[s]).bits == 0)
                ==> exists|s: int|
                0 <= s < dist.len() && (#[trigger] dist[s]).bits == 0 && way(s, t, width, c.low)
                    <= (c.m)(r)
        }),
{
    let len = dist.len();
    assert(all_plain(dist));
    let middle = forward::<N>(dist, width, height, len);
    let r = chamfered::<N>(dist, width, height)[t];
    lemma_forward::<N>(dist, width, height, len);
    lemma_backward::<N>(middle, width, height, len);
    assert(all_explained(dist, dist, width, c)) by {
        assert forall|i: int| 0 <= i < dist.len() implies explained(
            dist,
            #[trigger] dist[i],
            i,
            width,
            c,
        ) by {
            if dist[i].bits == 0 {
                lemma_last_step(0, 0, c.low);
                assert(dist[i] == F32 { bits: 0 });
                assert(way(i, i, width, c.low) <= (c.m)(dist[i]));
            }
        }
    }
    lemma_forward_explained::<N>(dist, dist, width, height, c, len);
    lemma_backward_explained::<N>(dist, middle, width, height, c, len);
    assert(plain(r));
    assert(explained(dist, r, t, width, c));
    assert forall|s: int| 0 <= s < dist.len() && (#[trigger] dist[s]).bits == 0 implies r.bits
        < INFINITE32 && (c.m)(r) <= way(s, t, width, c.high) && (c.m)(r) <= c.limit by {
        lemma_backward_reaches::<N>(dist, width, height, c, s, t);
        lemma_index_splits(s, width, height);
        lemma_index_splits(t, width, height);
        assert(octile(t % width - s % width, t / width - s / width, c.high) <= c.limit);
    }
    if dist[t].bits == 0 {
        law_chamfer_keeps_seeds::<N>(dist, width, height, t);
    }
    if exists|s: int| 0 <= s < dist.len() && (#[trigger] dist[s]).bits == 0 {
        let s0 = choose|s: int| 0 <= s < dist.len() && (#[trigger] dist[s]).bits == 0;
        assert(r.bits < INFINITE32);
        let s = choose|s: int|
            0 <= s < dist.len() && (#[trigger] dist[s]).bits == 0 && (way(s, t, width, c.low) <= (
            c.m)(r) || c.limit < (c.m)(r));
        assert(way(s, t, width, c.low) <= (c.m)(r));
    }
}

/// A field is certain at its reference points: where a distance of zero has likelihood
/// one, a lookup at a finite reference point in the raster reads one.
pub proof fn law_reference_points_are_certain<N: Numerics>(
    points: Seq<Point2>,
    resolution_m: F64,
    sigma_m: F64,
    margin_m: F64,
    max_cells: usize,
    field: FieldModel,
    k: int,
    cell: (i64, i64),
)
    requires
        climbs::<N>(),
        field_of::<N>(points, resolution_m, sigma_m, margin_m, max_cells) == Ok::<
            FieldModel,
            SlamError,
        >(field),
        0 <= k < points.len(),
        points[k].is_finite(),
        cell_of::<N>(points[k], field.origin, field.resolution_m) == Some(cell),
        inside(cell, field.width, field.height),
        likelihood::<N>(
            F32 { bits: 0 },
            narrow_of::<N>(resolution_m),
            sharpness::<N>(sigma_m),
        ) == (F32 { bits: ONE32 }),
    ensures
        field.nearest::<N>(points[k]) == (F32 { bits: ONE32 }),
{
    let (w, h) = (field.width as int, field.height as int);
    lemma_index_in_grid(cell.0 as int, cell.1 as int, w, h);
    let i = index_of(cell, field.width);
    let dist = seeded::<N>(points, field.origin, resolution_m, field.width, field.height);
    assert(occupied::<N>(
        points,
        field.origin,
        resolution_m,
        field.width,
        field.height,
        points.len(),
        i,
    ));
    assert(dist[i].bits == 0);
    law_chamfer_keeps_seeds::<N>(dist, w, h, i);
}

/// Where every likelihood lies in `0..=1`, so does every lookup.
pub proof fn law_lookup_is_a_probability<N: Numerics>(
    points: Seq<Point2>,
    resolution_m: F64,
    sigma_m: F64,
    margin_m: F64,
    max_cells: usize,
    field: FieldModel,
    p: Point2,
)
    requires
        climbs::<N>(),
        field_of::<N>(points, resolution_m, sigma_m, margin_m, max_cells) == Ok::<
            FieldModel,
            SlamError,
        >(field),
        forall|d: F32|
            plain(d) ==> {
                let l = #[trigger] likelihood::<N>(
                    d,
                    narrow_of::<N>(resolution_m),
                    sharpness::<N>(sigma_m),
                );
                (F32 { bits: 0 }).le(l) && l.le(F32 { bits: ONE32 })
            },
    ensures
        (F32 { bits: 0 }).le(field.nearest::<N>(p)),
        field.nearest::<N>(p).le(F32 { bits: ONE32 }),
{
    match cell_of::<N>(p, field.origin, field.resolution_m) {
        Some(cell) => if inside(cell, field.width, field.height) {
            let (w, h) = (field.width as int, field.height as int);
            lemma_index_in_grid(cell.0 as int, cell.1 as int, w, h);
            let i = index_of(cell, field.width);
            let dist = seeded::<N>(points, field.origin, resolution_m, field.width, field.height);
            assert(all_plain(dist));
            lemma_forward::<N>(dist, w, h, dist.len());
            let middle = forward::<N>(dist, w, h, dist.len());
            lemma_backward::<N>(middle, w, h, dist.len());
            assert(plain(chamfered::<N>(dist, w, h)[i]));
        },
        None => {},
    }
}

/// A diagonal step weighs the root of two, as near as single precision comes: its
/// significand, squared, is twice that of one, up to the significand itself.
pub proof fn law_diagonal_step_is_the_root_of_two()
    ensures
        ({
            let one: int = 0x80_0000;
            let m = one + (DIAGONAL - ONE32);
            &&& 0 <= DIAGONAL - ONE32 < one
            &&& -m <= m * m - 2 * (one * one) <= m
        }),
{
}

} // verus!
