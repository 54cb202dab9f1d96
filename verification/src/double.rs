//! IEEE 754 numbers carried as bit patterns.
//!
//! Distances, residuals and weights are computed in floating point by the code
//! around this library. Here they are only compared, capped and handed on, and
//! for that their bit patterns are enough: apart from NaN, doubles are ordered
//! as sign-and-magnitude integers.

use vstd::arithmetic::power2::*;
use vstd::prelude::*;

verus! {

/// Weight of the sign bit.
pub const SIGN: u64 = 0x8000_0000_0000_0000;

/// Magnitude of the infinities. Finite numbers lie below it, NaNs above.
pub const INFINITE: u64 = 0x7ff0_0000_0000_0000;

/// Number of distinct fractions per exponent, two to the 52nd.
pub const FRACTIONS: u64 = 0x10_0000_0000_0000;

/// A 64-bit floating-point number, by its bit pattern.
#[derive(Clone, Copy, Debug, PartialEq, Eq, Structural)]
pub struct Double {
    pub bits: u64,
}

/// A 32-bit floating-point number, by its bit pattern.
#[derive(Clone, Copy, Debug, PartialEq, Eq, Structural)]
pub struct Single {
    pub bits: u32,
}

/// Bit pattern of 0.
pub const ZERO: u64 = 0;

/// Bit pattern of the double 1.
pub const ONE: u64 = 0x3ff0_0000_0000_0000;

/// What a finite magnitude stands for, counted in the smallest positive double.
pub open spec fn units(magnitude: int) -> int {
    let exponent = magnitude / (FRACTIONS as int);
    let fraction = magnitude % (FRACTIONS as int);
    if exponent == 0 {
        fraction
    } else {
        (FRACTIONS + fraction) * pow2((exponent - 1) as nat)
    }
}

impl Double {
    pub open spec fn spec_negative(self) -> bool {
        self.bits >= SIGN
    }

    /// The bit pattern without its sign bit.
    pub open spec fn magnitude(self) -> int {
        self.bits as int % SIGN as int
    }

    pub open spec fn spec_is_nan(self) -> bool {
        self.magnitude() > INFINITE
    }

    pub open spec fn spec_is_finite(self) -> bool {
        self.magnitude() < INFINITE
    }

    /// Position on the number line; the two zeros share one.
    pub open spec fn rank(self) -> int {
        if self.spec_negative() {
            -self.magnitude()
        } else {
            self.magnitude()
        }
    }

    /// The number a finite double stands for, counted in the smallest positive double.
    pub open spec fn value(self) -> int {
        if self.spec_negative() {
            -units(self.magnitude())
        } else {
            units(self.magnitude())
        }
    }

    /// `self <= other` of floating point: false where either is NaN.
    pub open spec fn spec_le(self, other: Double) -> bool {
        !self.spec_is_nan() && !other.spec_is_nan() && self.rank() <= other.rank()
    }

    /// `self < other` of floating point: false where either is NaN.
    pub open spec fn spec_lt(self, other: Double) -> bool {
        !self.spec_is_nan() && !other.spec_is_nan() && self.rank() < other.rank()
    }

    /// `self`, or `floor` where `self` is NaN or not above it.
    pub open spec fn spec_at_least(self, floor: Double) -> Double {
        if floor.spec_lt(self) {
            self
        } else {
            floor
        }
    }

    /// `self`, or `cap` where `self` is NaN or not below it.
    pub open spec fn spec_at_most(self, cap: Double) -> Double {
        if self.spec_lt(cap) {
            self
        } else {
            cap
        }
    }

    /// `self` moved to the nearer end of `low..=high` where it lies outside; NaN is kept.
    pub open spec fn spec_clamp(self, low: Double, high: Double) -> Double {
        if self.spec_lt(low) {
            low
        } else if high.spec_lt(self) {
            high
        } else {
            self
        }
    }

    fn size(self) -> (m: u64)
        ensures
            m == self.magnitude(),
            m < SIGN,
    {
        if self.bits >= SIGN {
            self.bits - SIGN
        } else {
            self.bits
        }
    }

    pub fn is_nan(self) -> (r: bool)
        ensures
            r == self.spec_is_nan(),
    {
        self.size() > INFINITE
    }

    pub fn is_finite(self) -> (r: bool)
        ensures
            r == self.spec_is_finite(),
    {
        self.size() < INFINITE
    }

    /// Floating-point `self <= other`.
    pub fn le(self, other: Double) -> (r: bool)
        ensures
            r == self.spec_le(other),
    {
        let a: u64 = self.size();
        let b: u64 = other.size();
        if a > INFINITE || b > INFINITE {
            false
        } else if self.bits >= SIGN {
            if other.bits >= SIGN {
                b <= a
            } else {
                true
            }
        } else if other.bits >= SIGN {
            a == 0 && b == 0
        } else {
            a <= b
        }
    }

    /// Floating-point `self < other`.
    pub fn lt(self, other: Double) -> (r: bool)
        ensures
            r == self.spec_lt(other),
    {
        !self.is_nan() && !other.is_nan() && !other.le(self)
    }

    /// Floating-point maximum; at equal values the result is `floor`.
    pub fn at_least(self, floor: Double) -> (r: Double)
        ensures
            r == self.spec_at_least(floor),
    {
        if floor.lt(self) {
            self
        } else {
            floor
        }
    }

    /// Floating-point minimum; at equal values the result is `cap`.
    pub fn at_most(self, cap: Double) -> (r: Double)
        ensures
            r == self.spec_at_most(cap),
    {
        if self.lt(cap) {
            self
        } else {
            cap
        }
    }

    /// Floating-point clamp to `low..=high`.
    pub fn clamp(self, low: Double, high: Double) -> (r: Double)
        requires
            low.spec_le(high),
        ensures
            r == self.spec_clamp(low, high),
    {
        if self.lt(low) {
            low
        } else if high.lt(self) {
            high
        } else {
            self
        }
    }
}

impl Single {
    pub open spec fn spec_is_nan(self) -> bool {
        self.bits % 0x8000_0000 > 0x7f80_0000
    }

    /// Position on the number line; the two zeros share one.
    pub open spec fn rank(self) -> int {
        if self.bits >= 0x8000_0000 {
            0x8000_0000 - self.bits
        } else {
            self.bits as int
        }
    }

    /// `self <= other` of floating point: false where either is NaN.
    pub open spec fn spec_le(self, other: Single) -> bool {
        !self.spec_is_nan() && !other.spec_is_nan() && self.rank() <= other.rank()
    }

    /// Floating-point `self <= 0`: false for NaN.
    pub open spec fn spec_not_positive(self) -> bool {
        self.bits == 0 || 0x8000_0000 <= self.bits <= 0xff80_0000
    }

    /// Floating-point `self <= 0`.
    pub fn not_positive(self) -> (r: bool)
        ensures
            r == self.spec_not_positive(),
    {
        self.bits == 0 || (0x8000_0000 <= self.bits && self.bits <= 0xff80_0000)
    }
}

proof fn lemma_units_increase(a: int, b: int)
    requires
        0 <= a < b < INFINITE,
    ensures
        0 <= units(a) < units(b),
{
    let k: int = FRACTIONS as int;
    let ea = a / k;
    let fa = a % k;
    let eb = b / k;
    let fb = b % k;
    assert(a == k * ea + fa && b == k * eb + fb && 0 <= fa < k && 0 <= fb < k && 0 <= ea <= eb) by {
        vstd::arithmetic::div_mod::lemma_fundamental_div_mod(a, k);
        vstd::arithmetic::div_mod::lemma_fundamental_div_mod(b, k);
        vstd::arithmetic::div_mod::lemma_div_is_ordered(a, b, k);
    }
    if eb > 0 {
        let pb = pow2((eb - 1) as nat) as int;
        lemma_pow2_pos((eb - 1) as nat);
        assert((k + fb) * pb >= k * pb) by (nonlinear_arith)
            requires
                fb >= 0,
                pb > 0,
        ;
        assert(k * pb >= k) by (nonlinear_arith)
            requires
                pb > 0,
                k > 0,
        ;
        if ea > 0 {
            let pa = pow2((ea - 1) as nat) as int;
            lemma_pow2_pos((ea - 1) as nat);
            assert((k + fa) * pa > 0) by (nonlinear_arith)
                requires
                    fa >= 0,
                    pa > 0,
                    k > 0,
            ;
            if ea == eb {
                assert((k + fa) * pa < (k + fb) * pa) by (nonlinear_arith)
                    requires
                        fa < fb,
                        pa > 0,
                ;
            } else {
                lemma_pow2_unfold(ea as nat);
                if ea < eb - 1 {
                    lemma_pow2_strictly_increases(ea as nat, (eb - 1) as nat);
                }
                assert((k + fa) * pa < (k + k) * pa) by (nonlinear_arith)
                    requires
                        fa < k,
                        pa > 0,
                ;
                assert((k + k) * pa <= k * pb) by (nonlinear_arith)
                    requires
                        2 * pa <= pb,
                        k > 0,
                ;
            }
        }
    }
}

/// Comparing two finite doubles by their bit patterns compares the numbers they stand for.
pub proof fn order_is_order_of_values(a: Double, b: Double)
    requires
        a.spec_is_finite(),
        b.spec_is_finite(),
    ensures
        a.spec_le(b) <==> a.value() <= b.value(),
        a.spec_lt(b) <==> a.value() < b.value(),
{
    let ma = a.magnitude();
    let mb = b.magnitude();
    if ma < mb {
        lemma_units_increase(ma, mb);
    }
    if mb < ma {
        lemma_units_increase(mb, ma);
    }
    if 0 < ma {
        lemma_units_increase(0, ma);
    }
    if 0 < mb {
        lemma_units_increase(0, mb);
    }
    assert(units(0) == 0) by {
        assert(0int / (FRACTIONS as int) == 0);
    }
}

/// What a bit pattern stands for, by its sign, its eleven bits of exponent and its 52 bits of
/// fraction: no number where the exponent is full and the fraction is not empty, an infinity where
/// it is empty, else a number, counted in the smallest positive double.
pub proof fn bits_spell_the_number(d: Double)
    ensures
        ({
            let size = d.bits as int % 0x8000_0000_0000_0000;
            let exponent = size / 0x10_0000_0000_0000;
            let fraction = size % 0x10_0000_0000_0000;
            &&& d.spec_is_nan() <==> exponent == 2047 && fraction != 0
            &&& d.spec_is_finite() <==> exponent < 2047
            &&& d.spec_is_finite() ==> d.value() == (if d.bits < 0x8000_0000_0000_0000 {
                1int
            } else {
                -1int
            }) * (if exponent == 0 {
                fraction
            } else {
                (0x10_0000_0000_0000 + fraction) * pow2((exponent - 1) as nat)
            })
        }),
{
    let size = d.magnitude();
    let k: int = 0x10_0000_0000_0000;
    vstd::arithmetic::div_mod::lemma_fundamental_div_mod(size, k);
    assert(size < 0x8000_0000_0000_0000);
    let u = units(size);
    assert(1int * u == u && (-1int) * u == -u);
}

/// Every number lies between the infinities, which are apart from all others, and what is no number
/// compares with nothing.
pub proof fn infinities_bound_the_numbers(d: Double, other: Double)
    ensures
        ({
            let up = Double { bits: 0x7ff0_0000_0000_0000 };
            let down = Double { bits: 0xfff0_0000_0000_0000 };
            &&& !d.spec_is_nan() ==> d.spec_le(up) && down.spec_le(d)
            &&& up.spec_le(d) <==> d == up
            &&& d.spec_le(down) <==> d == down
            &&& d.spec_lt(up) <==> !d.spec_is_nan() && d != up
            &&& down.spec_lt(d) <==> !d.spec_is_nan() && d != down
            &&& d.spec_is_nan() ==> !d.spec_le(other) && !other.spec_le(d) && !d.spec_lt(other)
                && !other.spec_lt(d)
            &&& d.spec_lt(other) <==> d.spec_le(other) && !other.spec_le(d)
        }),
{
}

/// A lower bound gives the larger of two numbers, an upper bound the smaller, and a clamp keeps
/// what lies within; what is no number becomes the bound, but is kept by a clamp.
pub proof fn bounds_move_only_what_lies_outside(d: Double, low: Double, high: Double)
    requires
        low.spec_le(high),
    ensures
        low.spec_lt(d) ==> d.spec_at_least(low) == d,
        !low.spec_lt(d) ==> d.spec_at_least(low) == low,
        d.spec_lt(high) ==> d.spec_at_most(high) == d,
        !d.spec_lt(high) ==> d.spec_at_most(high) == high,
        low.spec_le(d) && d.spec_le(high) ==> d.spec_clamp(low, high) == d,
        d.spec_lt(low) ==> d.spec_clamp(low, high) == low,
        high.spec_lt(d) ==> d.spec_clamp(low, high) == high,
        d.spec_is_nan() ==> d.spec_clamp(low, high) == d,
{
}

/// Comparing two singles compares their sizes, the other way round below zero; one is not positive
/// where it is at most zero.
pub proof fn singles_compare_by_sign_and_size(a: Single, b: Single)
    ensures
        ({
            let half = 0x8000_0000int;
            let (x, y) = (a.bits as int % half, b.bits as int % half);
            let numbers = x <= 0x7f80_0000 && y <= 0x7f80_0000;
            &&& a.spec_is_nan() <==> x > 0x7f80_0000
            &&& !numbers ==> !a.spec_le(b)
            &&& numbers && a.bits < half && b.bits < half ==> (a.spec_le(b) <==> x <= y)
            &&& numbers && a.bits >= half && b.bits >= half ==> (a.spec_le(b) <==> y <= x)
            &&& numbers && a.bits >= half && b.bits < half ==> a.spec_le(b)
            &&& numbers && a.bits < half && b.bits >= half ==> (a.spec_le(b) <==> x == 0 && y == 0)
            &&& a.spec_not_positive() <==> x <= 0x7f80_0000 && (x == 0 || a.bits >= half)
        }),
{
}

/// The number that a positive bit pattern stands for, where its significant bits are a multiple of
/// a power of two.
pub proof fn lemma_value(d: Double, factor: int, shift: nat)
    requires
        0x10_0000_0000_0000 <= d.bits < 0x7ff0_0000_0000_0000,
        0x10_0000_0000_0000 + d.bits as int % 0x10_0000_0000_0000 == factor * pow2(shift),
    ensures
        d.value() == factor * pow2((shift + d.bits as int / 0x10_0000_0000_0000 - 1) as nat),
{
    let exponent = d.bits as int / 0x10_0000_0000_0000;
    let low = pow2(shift) as int;
    let high = pow2((exponent - 1) as nat) as int;
    bits_spell_the_number(d);
    lemma_pow2_adds(shift, (exponent - 1) as nat);
    assert((factor * low) * high == factor * (low * high)) by (nonlinear_arith);
    assert(shift + (exponent - 1) as nat == (shift + exponent - 1) as nat);
}

/// Zero and one are what they are called, counted in the smallest positive double.
pub proof fn zero_and_one()
    ensures
        (Double { bits: ZERO }).value() == 0,
        (Double { bits: ONE }).value() == pow2(1074),
{
    lemma2_to64_rest();
    bits_spell_the_number(Double { bits: ZERO });
    lemma_value(Double { bits: ONE }, 1, 52);
}

} // verus!
