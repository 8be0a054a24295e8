//! Bit patterns of IEEE 754 numbers.
//!
//! [`F64`] and [`F32`] carry a binary64 or binary32 value as its bit pattern.
//! Everything about such a value that needs no rounding is settled here on
//! integers: its class, its sign, the order of two values and the floor of one.
//! Operations that round are the business of [`crate::numerics`].

use vstd::arithmetic::power2::{
    lemma2_to64, lemma2_to64_rest, lemma_pow2_adds, lemma_pow2_pos, lemma_pow2_strictly_increases, lemma_pow2_unfold, pow2,
};
use vstd::prelude::*;

verus! {

/// Sign bit of a binary64 pattern.
pub const SIGN64: u64 = 0x8000_0000_0000_0000;

/// Pattern of positive infinity; every larger magnitude is a NaN.
pub const INFINITE64: u64 = 0x7ff0_0000_0000_0000;

/// Weight of the lowest exponent bit, and of the implicit leading one: 2^52.
pub const IMPLICIT64: u64 = 0x0010_0000_0000_0000;

/// Sign bit of a binary32 pattern.
pub const SIGN32: u32 = 0x8000_0000;

/// Pattern of positive infinity in binary32.
pub const INFINITE32: u32 = 0x7f80_0000;

/// A binary64 value, held as its bit pattern.
///
/// `==` compares patterns; the order of the values is [`F64::lt`] and its kin.
#[derive(Debug, Clone, Copy, PartialEq, Eq, Structural)]
pub struct F64 {
    /// The bit pattern.
    pub bits: u64,
}

/// A binary32 value, held as its bit pattern.
#[derive(Debug, Clone, Copy, PartialEq, Eq, Structural)]
pub struct F32 {
    /// The bit pattern.
    pub bits: u32,
}

impl F64 {
    /// `true` if the sign bit is set.
    #[verifier::allow_in_spec]
    pub fn is_negative(self) -> bool
        returns
            self.bits >= SIGN64,
    {
        self.bits >= SIGN64
    }

    /// The pattern without its sign bit.
    #[verifier::allow_in_spec]
    pub fn magnitude(self) -> u64
        returns
            (if self.bits >= SIGN64 {
                (self.bits - SIGN64) as u64
            } else {
                self.bits
            }),
    {
        if self.bits >= SIGN64 {
            self.bits - SIGN64
        } else {
            self.bits
        }
    }

    /// `true` for every NaN.
    #[verifier::allow_in_spec]
    pub fn is_nan(self) -> bool
        returns
            self.magnitude() > INFINITE64,
    {
        self.magnitude() > INFINITE64
    }

    /// `true` unless the value is infinite or a NaN.
    #[verifier::allow_in_spec]
    pub fn is_finite(self) -> bool
        returns
            self.magnitude() < INFINITE64,
    {
        self.magnitude() < INFINITE64
    }

    /// Position of a value that is no NaN among all such values: `a < b`
    /// exactly if `a.rank() < b.rank()`. Both zeros have rank 0.
    #[verifier::allow_in_spec]
    pub fn rank(self) -> i64
        returns
            (if self.bits >= SIGN64 {
                -((self.bits - SIGN64) as i64)
            } else {
                self.bits as int
            }) as i64,
    {
        if self.bits >= SIGN64 {
            -((self.bits - SIGN64) as i64)
        } else {
            self.bits as i64
        }
    }

    /// `self < other`; `false` if either is a NaN.
    #[verifier::allow_in_spec]
    pub fn lt(self, other: F64) -> bool
        returns
            !self.is_nan() && !other.is_nan() && self.rank() < other.rank(),
    {
        !self.is_nan() && !other.is_nan() && self.rank() < other.rank()
    }

    /// `self <= other`; `false` if either is a NaN.
    #[verifier::allow_in_spec]
    pub fn le(self, other: F64) -> bool
        returns
            !self.is_nan() && !other.is_nan() && self.rank() <= other.rank(),
    {
        !self.is_nan() && !other.is_nan() && self.rank() <= other.rank()
    }

    /// `-self`: the sign bit is flipped.
    #[verifier::allow_in_spec]
    pub fn negated(self) -> F64
        returns
            (if self.bits >= SIGN64 {
                F64 { bits: (self.bits - SIGN64) as u64 }
            } else {
                F64 { bits: (self.bits + SIGN64) as u64 }
            }),
    {
        if self.bits >= SIGN64 {
            F64 { bits: self.bits - SIGN64 }
        } else {
            F64 { bits: self.bits + SIGN64 }
        }
    }

    /// `|self|`: the sign bit is cleared.
    #[verifier::allow_in_spec]
    pub fn absolute(self) -> F64
        returns
            (F64 { bits: self.magnitude() }),
    {
        F64 { bits: self.magnitude() }
    }

    /// The larger of two values; a NaN gives way to the other value, and of two
    /// zeros the positive one is returned.
    #[verifier::allow_in_spec]
    pub fn max(self, other: F64) -> F64
        returns
            (if self.is_nan() || self.lt(other) || (self.rank() == other.rank() && other.bits
                < self.bits) {
                other
            } else {
                self
            }),
    {
        if self.is_nan() || self.lt(other) || (self.rank() == other.rank() && other.bits
            < self.bits) {
            other
        } else {
            self
        }
    }

    /// The smaller of two values; a NaN gives way to the other value, and of two
    /// zeros the negative one is returned.
    #[verifier::allow_in_spec]
    pub fn min(self, other: F64) -> F64
        returns
            (if self.is_nan() || other.lt(self) || (self.rank() == other.rank() && self.bits
                < other.bits) {
                other
            } else {
                self
            }),
    {
        if self.is_nan() || other.lt(self) || (self.rank() == other.rank() && self.bits
            < other.bits) {
            other
        } else {
            self
        }
    }

    /// `self`, moved into `[low, high]`; a NaN stays a NaN.
    pub fn clamp(self, low: F64, high: F64) -> (r: F64)
        requires
            low.le(high),
        ensures
            r == self.clamped(low, high),
    {
        if self.lt(low) {
            low
        } else if high.lt(self) {
            high
        } else {
            self
        }
    }

    /// What [`F64::clamp`] returns.
    pub open spec fn clamped(self, low: F64, high: F64) -> F64 {
        if self.lt(low) {
            low
        } else if high.lt(self) {
            high
        } else {
            self
        }
    }

    /// Exponent field.
    pub open spec fn exponent(self) -> nat {
        (self.magnitude() / IMPLICIT64) as nat
    }

    /// Significand, with the implicit leading one of a normal number.
    pub open spec fn significand(self) -> nat {
        let fraction = (self.magnitude() % IMPLICIT64) as nat;
        if self.exponent() == 0 {
            fraction
        } else {
            fraction + IMPLICIT64 as nat
        }
    }

    /// The value of a finite pattern in units of 2^-1074, the spacing of the
    /// subnormal numbers: every finite binary64 value is such a multiple.
    pub open spec fn units(self) -> int {
        let e = self.exponent();
        let size = self.significand() * pow2((if e == 0 {
            0
        } else {
            e - 1
        }) as nat);
        if self.is_negative() {
            -size
        } else {
            size as int
        }
    }
}

impl F32 {
    /// The pattern without its sign bit.
    #[verifier::allow_in_spec]
    pub fn magnitude(self) -> u32
        returns
            (if self.bits >= SIGN32 {
                (self.bits - SIGN32) as u32
            } else {
                self.bits
            }),
    {
        if self.bits >= SIGN32 {
            self.bits - SIGN32
        } else {
            self.bits
        }
    }

    /// `true` for every NaN.
    #[verifier::allow_in_spec]
    pub fn is_nan(self) -> bool
        returns
            self.magnitude() > INFINITE32,
    {
        self.magnitude() > INFINITE32
    }

    /// `true` unless the value is infinite or a NaN.
    #[verifier::allow_in_spec]
    pub fn is_finite(self) -> bool
        returns
            self.magnitude() < INFINITE32,
    {
        self.magnitude() < INFINITE32
    }

    /// Position of a value that is no NaN among all such values, as
    /// [`F64::rank`].
    #[verifier::allow_in_spec]
    pub fn rank(self) -> i32
        returns
            (if self.bits >= SIGN32 {
                -((self.bits - SIGN32) as i32)
            } else {
                self.bits as int
            }) as i32,
    {
        if self.bits >= SIGN32 {
            -((self.bits - SIGN32) as i32)
        } else {
            self.bits as i32
        }
    }

    /// `self < other`; `false` if either is a NaN.
    #[verifier::allow_in_spec]
    pub fn lt(self, other: F32) -> bool
        returns
            !self.is_nan() && !other.is_nan() && self.rank() < other.rank(),
    {
        !self.is_nan() && !other.is_nan() && self.rank() < other.rank()
    }

    /// `self <= other`; `false` if either is a NaN.
    #[verifier::allow_in_spec]
    pub fn le(self, other: F32) -> bool
        returns
            !self.is_nan() && !other.is_nan() && self.rank() <= other.rank(),
    {
        !self.is_nan() && !other.is_nan() && self.rank() <= other.rank()
    }

    /// `-self`: the sign bit is flipped.
    #[verifier::allow_in_spec]
    pub fn negated(self) -> F32
        returns
            (if self.bits >= SIGN32 {
                F32 { bits: (self.bits - SIGN32) as u32 }
            } else {
                F32 { bits: (self.bits + SIGN32) as u32 }
            }),
    {
        if self.bits >= SIGN32 {
            F32 { bits: self.bits - SIGN32 }
        } else {
            F32 { bits: self.bits + SIGN32 }
        }
    }

    /// `self`, moved into `[low, high]`; a NaN stays a NaN.
    pub fn clamp(self, low: F32, high: F32) -> (r: F32)
        requires
            low.le(high),
        ensures
            r == self.clamped(low, high),
    {
        if self.lt(low) {
            low
        } else if high.lt(self) {
            high
        } else {
            self
        }
    }

    /// What [`F32::clamp`] returns.
    pub open spec fn clamped(self, low: F32, high: F32) -> F32 {
        if self.lt(low) {
            low
        } else if high.lt(self) {
            high
        } else {
            self
        }
    }
}

/// The order of finite patterns is the order of their values.
pub proof fn law_order_is_value_order(a: F64, b: F64)
    requires
        a.is_finite(),
        b.is_finite(),
    ensures
        a.lt(b) <==> a.units() < b.units(),
        a.le(b) <==> a.units() <= b.units(),
{
    let x = F64 { bits: a.magnitude() };
    let y = F64 { bits: b.magnitude() };
    lemma_units_of_magnitude(a);
    lemma_units_of_magnitude(b);
    if x.bits < y.bits {
        lemma_units_increase(x, y);
    } else if y.bits < x.bits {
        lemma_units_increase(y, x);
    }
}

/// A finite value has the units of its magnitude, signed; they vanish only
/// where the magnitude does.
proof fn lemma_units_of_magnitude(a: F64)
    requires
        a.is_finite(),
    ensures
        ({
            let x = F64 { bits: a.magnitude() };
            &&& a.units() == (if a.is_negative() {
                -x.units()
            } else {
                x.units()
            })
            &&& x.units() >= 0
            &&& (x.units() == 0 <==> x.bits == 0)
        }),
{
    let x = F64 { bits: a.magnitude() };
    assert(x.magnitude() == a.magnitude());
    assert(x.units() >= 0) by {
        assert(x.significand() * pow2((if x.exponent() == 0 {
            0
        } else {
            x.exponent() - 1
        }) as nat) >= 0) by (nonlinear_arith);
    }
    let zero = F64 { bits: 0 };
    assert(zero.units() == 0) by {
        assert(zero.exponent() == 0);
        assert(zero.significand() == 0);
    }
    if x.bits > 0 {
        lemma_units_increase(zero, x);
    }
}

/// Of two non-negative finite values the larger pattern has more units.
proof fn lemma_units_increase(x: F64, y: F64)
    requires
        x.bits < y.bits < INFINITE64,
    ensures
        x.units() < y.units(),
{
    let (e, f) = (x.exponent(), y.exponent());
    let (s, t) = (x.significand(), y.significand());
    let p = pow2((if e == 0 {
        0
    } else {
        e - 1
    }) as nat);
    let q = pow2((if f == 0 {
        0
    } else {
        f - 1
    }) as nat);
    lemma_pow2_pos((if e == 0 {
        0
    } else {
        e - 1
    }) as nat);
    lemma_pow2_pos((if f == 0 {
        0
    } else {
        f - 1
    }) as nat);
    assert(e <= f);
    if e == f {
        assert(s < t);
        assert(s * p < t * p) by (nonlinear_arith)
            requires
                s < t,
                p > 0,
        ;
    } else if e == 0 {
        assert(t * q >= t) by (nonlinear_arith)
            requires
                q >= 1,
        ;
        assert(p == 1) by {
            lemma2_to64();
        }
        assert(s * p == s) by (nonlinear_arith)
            requires
                p == 1,
        ;
    } else {
        let i = IMPLICIT64 as nat;
        assert(2 * p <= q) by {
            lemma_pow2_unfold(e);
            if e < f - 1 {
                lemma_pow2_strictly_increases(e, (f - 1) as nat);
            }
        }
        assert(s < 2 * i && i <= t);
        assert(s * p < t * q) by (nonlinear_arith)
            requires
                s < 2 * i,
                i <= t,
                2 * p <= q,
                p > 0,
                s >= 0,
        ;
    }
}

/// One: the number of units in it.
pub open spec fn unit() -> int {
    pow2(1074) as int
}

/// Negation turns the sign of the value.
pub proof fn lemma_units_negated(a: F64)
    ensures
        a.negated().units() == -a.units(),
        a.is_finite() ==> a.negated().is_finite(),
        a.negated().negated() == a,
{
    assert(a.negated().magnitude() == a.magnitude());
}

/// The value of zero, and of one: 2^1074 units.
pub proof fn lemma_units_of_constants()
    ensures
        (F64 { bits: 0 }).units() == 0,
        (F64 { bits: 0x3ff0_0000_0000_0000 }).units() == unit(),
        unit() > 0,
{
    let zero = F64 { bits: 0 };
    let one = F64 { bits: 0x3ff0_0000_0000_0000 };
    assert(zero.significand() == 0 && zero.exponent() == 0);
    assert(0 * pow2(0) == 0) by (nonlinear_arith);
    assert(one.exponent() == 1023);
    assert(one.significand() == 0x0010_0000_0000_0000);
    lemma2_to64_rest();
    lemma_pow2_adds(52, 1022);
    lemma_pow2_pos(1074);
}

/// The values of a half, two, three, four and twelve.
pub proof fn lemma_units_of_numbers()
    ensures
        2 * (F64 { bits: 0x3fe0_0000_0000_0000 }).units() == unit(),
        (F64 { bits: 0x4000_0000_0000_0000 }).units() == 2 * unit(),
        (F64 { bits: 0x4008_0000_0000_0000 }).units() == 3 * unit(),
        (F64 { bits: 0x4010_0000_0000_0000 }).units() == 4 * unit(),
        (F64 { bits: 0x4028_0000_0000_0000 }).units() == 12 * unit(),
{
    let half = F64 { bits: 0x3fe0_0000_0000_0000 };
    let two = F64 { bits: 0x4000_0000_0000_0000 };
    let three = F64 { bits: 0x4008_0000_0000_0000 };
    let four = F64 { bits: 0x4010_0000_0000_0000 };
    let twelve = F64 { bits: 0x4028_0000_0000_0000 };
    assert(half.exponent() == 1022 && half.significand() == 0x0010_0000_0000_0000);
    assert(two.exponent() == 1024 && two.significand() == 0x0010_0000_0000_0000);
    assert(three.exponent() == 1024 && three.significand() == 0x0018_0000_0000_0000);
    assert(four.exponent() == 1025 && four.significand() == 0x0010_0000_0000_0000);
    assert(twelve.exponent() == 1026 && twelve.significand() == 0x0018_0000_0000_0000);
    lemma2_to64_rest();
    lemma2_to64();
    lemma_pow2_adds(52, 1022);
    lemma_pow2_adds(1, 1021);
    lemma_pow2_adds(1, 1022);
    lemma_pow2_adds(2, 1022);
    lemma_pow2_adds(3, 1022);
}

/// The value of a positive normal number, by its exponent and its significand.
pub proof fn lemma_units_of_pattern(a: F64, e: nat, s: nat)
    requires
        a.bits < SIGN64,
        1 <= e,
        0x0010_0000_0000_0000 <= s < 0x0020_0000_0000_0000,
        a.bits == (e - 1) * 0x0010_0000_0000_0000 + s,
    ensures
        a.units() == s * pow2((e - 1) as nat),
{
    vstd::arithmetic::div_mod::lemma_fundamental_div_mod_converse(
        a.bits as int,
        0x0010_0000_0000_0000,
        e as int,
        s - 0x0010_0000_0000_0000,
    );
}

} // verus!
