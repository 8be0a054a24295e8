//! How far single operations may round.
//!
//! Laws that speak of the numbers themselves (a distance in metres, a mean, a weight)
//! stand under the premises here: every operation is exact up to a stated error, on
//! operands up to a stated size. Values are counted in units of 2^-1074, of which
//! every finite value is a multiple.

use vstd::prelude::*;
use vstd::set_lib::{lemma_int_range, lemma_len_subset, set_int_range};

use crate::float::{
    law_order_is_value_order, lemma_units_negated, lemma_units_of_constants, unit, F64,
};
use crate::numerics::{difference, float_of, product, quotient, root_of, sum, Numerics};

verus! {

/// `a` and `b` differ by at most `slack`.
pub open spec fn near(a: int, b: int, slack: int) -> bool {
    -slack <= a - b <= slack
}

/// The size of a number.
pub open spec fn size(a: int) -> int {
    if a < 0 {
        -a
    } else {
        a
    }
}

/// How far operations round, in units: an operation on operands up to `limit` (products:
/// up to `side`) has an error of at most `e`.
pub ghost struct Accuracy {
    /// Bound of factors.
    pub side: int,
    /// Bound of other operands.
    pub limit: int,
    /// Greatest error of an operation.
    pub e: int,
}

impl Accuracy {
    /// The product of two factors is an operand.
    pub open spec fn wf(self) -> bool {
        &&& self.e >= 0
        &&& 0 <= self.side <= self.limit
        &&& self.side * self.side + unit() * self.e <= unit() * self.limit
    }

    /// A finite operand within the limit.
    pub open spec fn admits(self, a: F64) -> bool {
        a.is_finite() && near(a.units(), 0, self.limit)
    }

    /// A finite factor.
    pub open spec fn is_factor(self, a: F64) -> bool {
        a.is_finite() && near(a.units(), 0, self.side)
    }

    /// `N` adds, subtracts and multiplies up to `e`; a sum of values that are not
    /// negative is not negative, nor is a square.
    pub open spec fn describes<N: Numerics>(self) -> bool {
        &&& forall|a: F64, b: F64|
            self.admits(a) && self.admits(b) ==> {
                let r = #[trigger] sum::<N>(a, b);
                &&& r.is_finite()
                &&& near(r.units(), a.units() + b.units(), self.e)
                &&& a.units() >= 0 && b.units() >= 0 ==> r.units() >= 0
            }
        &&& forall|a: F64, b: F64|
            self.admits(a) && self.admits(b) ==> (#[trigger] difference::<N>(a, b)).is_finite()
                && near(difference::<N>(a, b).units(), a.units() - b.units(), self.e)
        &&& forall|a: F64, b: F64|
            self.is_factor(a) && self.is_factor(b) ==> {
                let r = #[trigger] product::<N>(a, b);
                &&& r.is_finite()
                &&& near(unit() * r.units(), a.units() * b.units(), unit() * self.e)
                &&& a == b ==> r.units() >= 0
            }
    }

    /// `N` divides up to `e`, where the quotient is within the limit.
    pub open spec fn describes_quotients<N: Numerics>(self) -> bool {
        forall|a: F64, b: F64|
            a.is_finite() && b.is_finite() && b.units() != 0 && unit() * size(a.units())
                <= self.limit * size(b.units()) ==> {
                let r = #[trigger] quotient::<N>(a, b);
                &&& r.is_finite()
                &&& near(r.units() * b.units(), unit() * a.units(), self.e * size(b.units()))
            }
    }

    /// `N` takes square roots up to `e`, in terms of the square.
    pub open spec fn describes_roots<N: Numerics>(self) -> bool {
        forall|a: F64|
            a.is_finite() && 0 <= a.units() <= 2 * self.limit + self.e ==> {
                let r = #[trigger] root_of::<N>(a);
                &&& r.is_finite()
                &&& r.units() >= 0
                &&& near(r.units() * r.units(), unit() * a.units(), unit() * self.e)
            }
    }

    /// `N` converts counts exactly.
    pub open spec fn counts<N: Numerics>(self) -> bool {
        forall|n: u32|
            (#[trigger] float_of::<N>(n)).is_finite() && float_of::<N>(n).units() == n * unit()
    }
}

/// The product of two bounded numbers is bounded.
pub proof fn lemma_bounded_product(a: int, b: int, x: int, y: int)
    requires
        near(a, 0, x),
        near(b, 0, y),
        x >= 0,
        y >= 0,
    ensures
        near(a * b, 0, x * y),
{
    assert(a * b <= x * y && -(x * y) <= a * b) by (nonlinear_arith)
        requires
            -x <= a <= x,
            -y <= b <= y,
            x >= 0,
            y >= 0,
    ;
}

/// A bound on a multiple is a bound on the number.
pub proof fn lemma_divided_bound(k: int, x: int, bound: int)
    requires
        k > 0,
        near(k * x, 0, k * bound),
    ensures
        near(x, 0, bound),
{
    assert(-bound <= x && x <= bound) by (nonlinear_arith)
        requires
            k > 0,
            -(k * bound) <= k * x,
            k * x <= k * bound,
    ;
}

/// A bound on a difference, times a positive number.
pub proof fn lemma_scaled_bound(k: int, a: int, b: int, e: int)
    requires
        k > 0,
        near(a, b, e),
    ensures
        near(k * a, k * b, k * e),
{
    assert(k * a - k * b <= k * e && -(k * e) <= k * a - k * b) by (nonlinear_arith)
        requires
            k > 0,
            -e <= a - b,
            a - b <= e,
    ;
}

/// A product is an operand.
pub proof fn lemma_product_admitted<N: Numerics>(c: Accuracy, a: F64, b: F64)
    requires
        c.wf(),
        c.describes::<N>(),
        c.is_factor(a),
        c.is_factor(b),
    ensures
        c.admits(product::<N>(a, b)),
        near(unit() * product::<N>(a, b).units(), a.units() * b.units(), unit() * c.e),
{
    lemma_units_of_constants();
    let r = product::<N>(a, b).units();
    lemma_bounded_product(a.units(), b.units(), c.side, c.side);
    lemma_divided_bound(unit(), r, c.limit);
}

/// A sum of two squares, times one, is the sum of the exact squares up to `3·e`.
pub proof fn lemma_sum_of_squares<N: Numerics>(c: Accuracy, x: F64, y: F64)
    requires
        c.wf(),
        c.describes::<N>(),
        c.is_factor(x),
        c.is_factor(y),
    ensures
        ({
            let s = sum::<N>(product::<N>(x, x), product::<N>(y, y));
            &&& s.is_finite()
            &&& 0 <= s.units() <= 2 * c.limit + c.e
            &&& near(
                unit() * s.units(),
                x.units() * x.units() + y.units() * y.units(),
                3 * (unit() * c.e),
            )
        }),
{
    lemma_units_of_constants();
    lemma_product_admitted::<N>(c, x, x);
    lemma_product_admitted::<N>(c, y, y);
    let (p, q) = (product::<N>(x, x), product::<N>(y, y));
    let s = sum::<N>(p, q);
    lemma_scaled_bound(unit(), s.units(), p.units() + q.units(), c.e);
    let (u, a, b) = (unit(), p.units(), q.units());
    assert(u * (a + b) == u * a + u * b) by (nonlinear_arith);
}

/// Error of a squared distance, times one.
pub open spec fn distance_error(c: Accuracy) -> int {
    2 * (c.e * (2 * c.side)) + 3 * (unit() * c.e)
}

/// The square of a difference that is exact up to `e`.
pub proof fn lemma_square_of_near(d: int, x: int, e: int, side: int)
    requires
        near(d, x, e),
        near(d, 0, side),
        near(x, 0, side),
        e >= 0,
        side >= 0,
    ensures
        near(d * d, x * x, e * (2 * side)),
{
    lemma_bounded_product(d - x, d + x, e, 2 * side);
    assert((d - x) * (d + x) == d * d - x * x) by (nonlinear_arith);
}

/// The squared distance of two points whose coordinates differ by no more than a
/// factor.
pub proof fn lemma_squared_distance<N: Numerics>(
    c: Accuracy,
    px: F64,
    py: F64,
    qx: F64,
    qy: F64,
)
    requires
        c.wf(),
        c.describes::<N>(),
        c.admits(px),
        c.admits(py),
        c.admits(qx),
        c.admits(qy),
        near(px.units() - qx.units(), 0, c.side - c.e),
        near(py.units() - qy.units(), 0, c.side - c.e),
    ensures
        ({
            let dx = difference::<N>(px, qx);
            let dy = difference::<N>(py, qy);
            let s = sum::<N>(product::<N>(dx, dx), product::<N>(dy, dy));
            let (x, y) = (px.units() - qx.units(), py.units() - qy.units());
            &&& s.is_finite()
            &&& near(unit() * s.units(), x * x + y * y, distance_error(c))
        }),
{
    let dx = difference::<N>(px, qx);
    let dy = difference::<N>(py, qy);
    lemma_sum_of_squares::<N>(c, dx, dy);
    lemma_square_of_near(dx.units(), px.units() - qx.units(), c.e, c.side);
    lemma_square_of_near(dy.units(), py.units() - qy.units(), c.e, c.side);
}

/// Of two numbers that are not negative, the squares are ordered as the numbers.
pub proof fn lemma_square_order(a: int, b: int)
    requires
        a >= 0,
        b >= 0,
    ensures
        a <= b <==> a * a <= b * b,
{
    assert(a <= b ==> a * a <= b * b) by (nonlinear_arith)
        requires
            a >= 0,
            b >= 0,
    ;
    assert(b < a ==> b * b < a * a) by (nonlinear_arith)
        requires
            a >= 0,
            b >= 0,
    ;
}

/// Multiples are ordered as the numbers.
pub proof fn lemma_multiple_order(k: int, a: int, b: int)
    requires
        k > 0,
    ensures
        a <= b <==> k * a <= k * b,
        a < b <==> k * a < k * b,
{
    assert((a <= b <==> k * a <= k * b) && (a < b <==> k * a < k * b)) by (nonlinear_arith)
        requires
            k > 0,
    ;
}

/// The absolute value has the size of the value.
pub proof fn lemma_absolute_units(a: F64)
    requires
        a.is_finite(),
    ensures
        a.absolute().is_finite(),
        a.absolute().units() == size(a.units()),
{
    let zero = F64 { bits: 0 };
    lemma_units_of_constants();
    lemma_units_negated(a);
    law_order_is_value_order(zero, a.absolute());
    if a.is_negative() {
        assert(a.absolute() == a.negated());
    } else {
        assert(a.absolute() == a);
    }
}

// ---- Counting ----

/// Those of the first `n` indices that are picked.
pub open spec fn indices(n: nat, pick: spec_fn(int) -> bool) -> Set<int> {
    Set::new(|j: int| 0 <= j < n && pick(j))
}

/// Picked indices are finitely many.
pub proof fn lemma_indices_finite(n: nat, pick: spec_fn(int) -> bool)
    ensures
        indices(n, pick).finite(),
        indices(n, pick).len() <= n,
{
    lemma_int_range(0, n as int);
    assert(indices(n, pick).subset_of(set_int_range(0, n as int)));
    lemma_len_subset(indices(n, pick), set_int_range(0, n as int));
}

/// One more index is one more, if it is picked.
pub proof fn lemma_indices_step(n: nat, pick: spec_fn(int) -> bool)
    ensures
        indices(0, pick).len() == 0,
        indices(n + 1, pick).len() == indices(n, pick).len() + (if pick(n as int) {
            1nat
        } else {
            0
        }),
{
    assert(indices(0, pick) =~= Set::empty());
    lemma_indices_finite(n, pick);
    if pick(n as int) {
        assert(indices(n + 1, pick) =~= indices(n, pick).insert(n as int));
    } else {
        assert(indices(n + 1, pick) =~= indices(n, pick));
    }
}

// ---- Operations that are exact on given operands ----

/// `N` adds `a` and `b` exactly.
pub open spec fn adds_exactly<N: Numerics>(a: F64, b: F64) -> bool {
    sum::<N>(a, b).is_finite() && sum::<N>(a, b).units() == a.units() + b.units()
}

/// `N` subtracts `b` from `a` exactly.
pub open spec fn subtracts_exactly<N: Numerics>(a: F64, b: F64) -> bool {
    difference::<N>(a, b).is_finite() && difference::<N>(a, b).units() == a.units() - b.units()
}

/// `N` multiplies `a` and `b` exactly.
pub open spec fn multiplies_exactly<N: Numerics>(a: F64, b: F64) -> bool {
    product::<N>(a, b).is_finite() && unit() * product::<N>(a, b).units() == a.units() * b.units()
}

/// `N` divides `a` by `b` exactly.
pub open spec fn divides_exactly<N: Numerics>(a: F64, b: F64) -> bool {
    &&& b.units() != 0
    &&& quotient::<N>(a, b).is_finite()
    &&& quotient::<N>(a, b).units() * b.units() == unit() * a.units()
}

/// `N` rounds to a number on the same side of 0: a difference has the sign of the order,
/// a product or quotient the sign of its operands, and a sum lies on the side of the
/// first operand that the second points to.
pub open spec fn keeps_signs<N: Numerics>() -> bool {
    let zero = F64 { bits: 0 };
    &&& forall|a: F64, b: F64|
        #![trigger difference::<N>(a, b)]
        a.is_finite() && b.is_finite() ==> {
            &&& a.le(b) ==> difference::<N>(a, b).le(zero)
            &&& b.le(a) ==> zero.le(difference::<N>(a, b))
        }
    &&& forall|a: F64, b: F64|
        #![trigger product::<N>(a, b)]
        a.is_finite() && b.is_finite() && zero.le(a) ==> {
            &&& zero.le(b) ==> zero.le(product::<N>(a, b))
            &&& b.le(zero) ==> product::<N>(a, b).le(zero)
        }
    &&& forall|b: F64|
        b.is_finite() && b.lt(zero) ==> (#[trigger] product::<N>(
            F64 { bits: 0x4000_0000_0000_0000 },
            b,
        )).lt(zero)
    &&& forall|a: F64, b: F64|
        #![trigger quotient::<N>(a, b)]
        a.is_finite() && b.is_finite() && b.lt(zero) ==> {
            &&& zero.le(a) ==> quotient::<N>(a, b).le(zero)
            &&& a.le(zero) ==> zero.le(quotient::<N>(a, b))
        }
    &&& forall|a: F64, b: F64|
        #![trigger sum::<N>(a, b)]
        a.is_finite() && b.is_finite() ==> {
            &&& zero.le(b) ==> a.le(sum::<N>(a, b))
            &&& b.le(zero) ==> sum::<N>(a, b).le(a)
        }
}

/// The exact sum of values, in units.
pub open spec fn total(values: Seq<F64>) -> int
    decreases values.len(),
{
    if values.len() == 0 {
        0
    } else {
        total(values.drop_last()) + values.last().units()
    }
}

} // verus!
