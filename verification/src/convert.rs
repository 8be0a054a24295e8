//! Audited numeric conversions.
//!
//! [`floor_to_i64`] is the one place where a floating-point value becomes an
//! integer; it checks its input first, so the conversion is exact.

use vstd::arithmetic::div_mod::{lemma_fundamental_div_mod, lemma_fundamental_div_mod_converse};
use vstd::arithmetic::power2::{
    lemma2_to64_rest, lemma_pow2_adds, lemma_pow2_pos, lemma_pow2_strictly_increases, pow2,
};
use vstd::bits::lemma_u64_shl_is_mul;
use vstd::prelude::*;

use crate::float::{lemma_units_of_constants, unit, F64, IMPLICIT64};

verus! {

/// Pattern of 2^53, the least magnitude at which not every integer is exactly
/// representable.
pub const MAX_EXACT: u64 = 0x4340_0000_0000_0000;

/// The floor of `v`, or `None` if `v` is not finite or its magnitude reaches
/// 2^53. Values count units of 2^-1074, so the floor is a division by 2^1074.
pub open spec fn floored(v: F64) -> Option<i64> {
    if v.is_finite() && -pow2(1127) < v.units() < pow2(1127) {
        Some((v.units() / pow2(1074) as int) as i64)
    } else {
        None
    }
}

/// Floor `v` and convert it to `i64`, or `None` if the value is not finite or
/// its magnitude is at least 2^53 (beyond the exactly representable integers).
pub fn floor_to_i64(v: F64) -> (r: Option<i64>)
    ensures
        r == floored(v),
        r is Some <==> v.magnitude() < MAX_EXACT,
        r matches Some(i) ==> {
            &&& -0x20_0000_0000_0000 <= i < 0x20_0000_0000_0000
            &&& i * pow2(1074) <= v.units() < (i + 1) * pow2(1074)
        },
{
    let magnitude = v.magnitude();
    if magnitude >= MAX_EXACT {
        proof {
            lemma_large(v);
        }
        return None;
    }
    let exponent: u64 = magnitude / IMPLICIT64;
    let fraction: u64 = magnitude % IMPLICIT64;
    let significand: u64 = if exponent == 0 {
        fraction
    } else {
        fraction + IMPLICIT64
    };
    let shift: u64 = if exponent == 0 {
        1074
    } else {
        1075 - exponent
    };
    let (whole, exact): (u64, bool) = if shift > 53 {
        (0, significand == 0)
    } else {
        proof {
            lemma2_to64_rest();
            if shift < 53 {
                lemma_pow2_strictly_increases(shift as nat, 53);
            }
            assert(1 * pow2(shift as nat) == pow2(shift as nat));
            lemma_u64_shl_is_mul(1, shift);
            lemma_pow2_pos(shift as nat);
        }
        let unit: u64 = 1u64 << shift;
        (significand / unit, significand % unit == 0)
    };
    proof {
        lemma_floor(v, shift as nat, whole, exact);
    }
    let size = whole as i64;
    if !v.is_negative() {
        Some(size)
    } else if exact {
        Some(-size)
    } else {
        Some(-size - 1)
    }
}

/// A magnitude from 2^53 up is not finite or spans at least 2^1127 units.
proof fn lemma_large(v: F64)
    requires
        v.magnitude() >= MAX_EXACT,
    ensures
        floored(v) is None,
{
    if v.is_finite() {
        let e = v.exponent();
        let s = v.significand();
        assert(e >= 1076);
        let p = pow2((e - 1) as nat);
        lemma2_to64_rest();
        lemma_pow2_adds(52, 1075);
        if e > 1076 {
            lemma_pow2_strictly_increases(1075, (e - 1) as nat);
        }
        assert(s >= pow2(52));
        assert(s * p >= pow2(52) * pow2(1075)) by (nonlinear_arith)
            requires
                s >= pow2(52),
                p >= pow2(1075),
        ;
    }
}

/// The integer part taken from the significand is the floor of the value.
proof fn lemma_floor(v: F64, shift: nat, whole: u64, exact: bool)
    requires
        v.magnitude() < MAX_EXACT,
        shift == (if v.exponent() == 0 {
            1074
        } else {
            1075 - v.exponent()
        }),
        shift > 53 ==> whole == 0 && exact == (v.significand() == 0),
        shift <= 53 ==> whole == v.significand() / pow2(shift) && exact == (v.significand() % pow2(
            shift,
        ) == 0),
    ensures
        whole < 0x20_0000_0000_0000,
        floored(v) == Some(
            (if !v.is_negative() {
                whole as int
            } else if exact {
                -whole
            } else {
                -whole - 1
            }) as i64,
        ),
        ({
            let i = floored(v)->0;
            i * pow2(1074) <= v.units() < (i + 1) * pow2(1074)
        }),
        -0x20_0000_0000_0000 <= floored(v)->0,
{
    let e = v.exponent();
    let s = v.significand() as int;
    let low = (if e == 0 {
        0
    } else {
        e - 1
    }) as nat;
    let p = pow2(low) as int;
    let d = pow2(shift) as int;
    lemma2_to64_rest();
    lemma_pow2_pos(low);
    lemma_pow2_pos(shift);
    lemma_pow2_pos(1074);
    lemma_pow2_adds(low, shift);
    lemma_pow2_adds(53, 1074);
    assert(p * d == pow2(1074));
    assert(s < pow2(53));
    if shift > 53 {
        lemma_pow2_strictly_increases(53, shift);
        lemma_fundamental_div_mod_converse(s, d, 0, s);
    }
    let w = whole as int;
    let r = s % d;
    lemma_fundamental_div_mod(s, d);
    assert(w == s / d);
    assert(exact == (r == 0));
    assert(w <= s) by (nonlinear_arith)
        requires
            s == d * w + r,
            r >= 0,
            d >= 1,
            w >= 0,
    ;
    let n = p * d;
    let u = v.units();
    assert(u == (if v.is_negative() {
        -(s * p)
    } else {
        s * p
    }));
    assert(s * p < pow2(53) * pow2(1074)) by {
        assert(p <= n) by (nonlinear_arith)
            requires
                n == p * d,
                d >= 1,
                p >= 1,
        ;
        assert(s * p < pow2(53) * n) by (nonlinear_arith)
            requires
                0 <= s < pow2(53),
                1 <= p <= n,
        ;
    }
    assert(0 <= s * p) by (nonlinear_arith)
        requires
            0 <= s,
            p >= 1,
    ;
    let (i, rest): (int, int) = if !v.is_negative() {
        (w, r * p)
    } else if exact {
        (-w, 0)
    } else {
        (-w - 1, (d - r) * p)
    };
    assert(u == i * n + rest && 0 <= rest < n) by (nonlinear_arith)
        requires
            s == d * w + r,
            0 <= r < d,
            p >= 1,
            n == p * d,
            exact == (r == 0),
            u == (if v.is_negative() {
                -(s * p)
            } else {
                s * p
            }),
            i == (if !v.is_negative() {
                w
            } else if exact {
                -w
            } else {
                -w - 1
            }),
            rest == (if !v.is_negative() {
                r * p
            } else if exact {
                0
            } else {
                (d - r) * p
            }),
    ;
    lemma_fundamental_div_mod_converse(u, n, i, rest);
    assert((i + 1) * n == i * n + n) by (nonlinear_arith);
    if v.is_negative() && !exact {
        assert(w < pow2(53));
    }
}

/// The floor counts whole ones: the value lies between it and the next integer.
pub proof fn lemma_floor_is_exact(v: F64)
    requires
        floored(v) is Some,
    ensures
        ({
            let i = floored(v)->0;
            &&& v.is_finite()
            &&& i * unit() <= v.units() < i * unit() + unit()
            &&& -0x20_0000_0000_0000 <= i < 0x20_0000_0000_0000
        }),
{
    lemma_units_of_constants();
    lemma_pow2_adds(1074, 53);
    lemma2_to64_rest();
    let (u, x) = (unit(), v.units());
    lemma_fundamental_div_mod(x, u);
    vstd::arithmetic::div_mod::lemma_mod_bound(x, u);
    let i = x / u;
    assert(-0x20_0000_0000_0000 <= i < 0x20_0000_0000_0000) by (nonlinear_arith)
        requires
            u > 0,
            x == u * i + x % u,
            0 <= x % u < u,
            -(u * 0x20_0000_0000_0000) < x < u * 0x20_0000_0000_0000,
    ;
    assert(u * i == i * u) by (nonlinear_arith);
}

/// The floor of a value between an integer and the next.
pub proof fn lemma_floor_of_value(v: F64, i: int)
    requires
        v.is_finite(),
        i * unit() <= v.units() < i * unit() + unit(),
        -0x20_0000_0000_0000 < i < 0x1f_ffff_ffff_ffff,
    ensures
        floored(v) == Some(i as i64),
{
    lemma_units_of_constants();
    lemma_pow2_adds(1074, 53);
    lemma2_to64_rest();
    let (u, x) = (unit(), v.units());
    assert(-(u * 0x20_0000_0000_0000) < x && x < u * 0x20_0000_0000_0000) by (nonlinear_arith)
        requires
            u > 0,
            i * u <= x < i * u + u,
            -0x20_0000_0000_0000 < i < 0x1f_ffff_ffff_ffff,
    ;
    vstd::arithmetic::div_mod::lemma_fundamental_div_mod_converse(x, u, i, x - i * u);
}

} // verus!
