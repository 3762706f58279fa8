//! IEEE 754 binary32 numbers, held as their 32-bit encodings.
//!
//! The renderer's arithmetic happens elsewhere; what this module decides about
//! a number (its sign, whether it is a number at all, how it compares with
//! another) it decides on the encoding, and proves against the exact value that
//! the encoding denotes.

use vstd::arithmetic::div_mod::{
    lemma_basic_div, lemma_div_by_multiple, lemma_div_denominator,
    lemma_div_is_ordered_by_denominator,
};
use vstd::arithmetic::mul::{
    lemma_mul_inequality, lemma_mul_is_associative, lemma_mul_is_commutative,
    lemma_mul_nonnegative, lemma_mul_strict_inequality, lemma_mul_upper_bound,
};
use vstd::bits::{lemma_u64_shl_is_mul, lemma_u64_shr_is_div};
use vstd::arithmetic::power2::{
    lemma2_to64, lemma_pow2_adds, lemma_pow2_pos, lemma_pow2_strictly_increases,
    lemma_pow2_unfold, pow2,
};
use vstd::prelude::*;

verus! {

/// The sign bit of an encoding.
pub const SIGN_BIT: u32 = 0x8000_0000;

/// The encoding of positive infinity; every larger magnitude is a NaN.
pub const INFINITY_BITS: u32 = 0x7F80_0000;

/// Two to the 23rd: the weight of the implicit leading bit of a significand,
/// and the number of fraction patterns per exponent.
pub const HIDDEN_BIT: u32 = 0x0080_0000;

/// The encoding of 1.
pub const ONE_BITS: u32 = 0x3F80_0000;

/// A binary32 number as its encoding: one sign bit, eight exponent bits,
/// twenty-three fraction bits.
#[derive(Clone, Copy, Debug, PartialEq, Eq, Structural)]
pub struct Scalar {
    pub bits: u32,
}

/// The magnitude of a number in units of 2^-149, from the encoding with the
/// sign bit cleared. The units of an encoding above `INFINITY_BITS` mean
/// nothing; the function is still increasing there.
pub open spec fn units_of(magnitude: u32) -> nat {
    let exponent = (magnitude / HIDDEN_BIT) as nat;
    let fraction = (magnitude % HIDDEN_BIT) as nat;
    if exponent == 0 {
        fraction
    } else {
        ((HIDDEN_BIT + fraction) * pow2((exponent - 1) as nat)) as nat
    }
}

impl Scalar {
    /// Whether the sign bit is set. True of negative zero too.
    pub open spec fn sign_spec(self) -> bool {
        self.bits >= SIGN_BIT
    }

    /// The encoding with the sign bit cleared.
    pub open spec fn magnitude_spec(self) -> u32 {
        if self.bits >= SIGN_BIT {
            (self.bits - SIGN_BIT) as u32
        } else {
            self.bits
        }
    }

    /// Whether the encoding is not a number.
    pub open spec fn is_nan_spec(self) -> bool {
        self.magnitude_spec() > INFINITY_BITS
    }

    /// Whether the encoding is one of the two infinities.
    pub open spec fn is_infinite_spec(self) -> bool {
        self.magnitude_spec() == INFINITY_BITS
    }

    /// Whether the encoding is a zero, a subnormal or a normal number.
    pub open spec fn is_finite_spec(self) -> bool {
        self.magnitude_spec() < INFINITY_BITS
    }

    /// The value of the number, multiplied by 2^149 so that it is an integer:
    /// every finite binary32 number is a whole multiple of 2^-149.
    ///
    /// The two infinities stand one binade beyond the largest finite
    /// magnitude, at plus and minus 2^277, so that the order of the integers
    /// is the order of the extended reals. Of a NaN the result means nothing.
    pub open spec fn scaled(self) -> int {
        if self.sign_spec() {
            -(units_of(self.magnitude_spec()) as int)
        } else {
            units_of(self.magnitude_spec()) as int
        }
    }

    /// `self < other` as IEEE 754 has it: false when either is a NaN.
    pub open spec fn lt_spec(self, other: Scalar) -> bool {
        !self.is_nan_spec() && !other.is_nan_spec() && self.scaled() < other.scaled()
    }

    /// `self <= other` as IEEE 754 has it: false when either is a NaN.
    pub open spec fn le_spec(self, other: Scalar) -> bool {
        !self.is_nan_spec() && !other.is_nan_spec() && self.scaled() <= other.scaled()
    }

    /// `self > other` as IEEE 754 has it: false when either is a NaN.
    pub open spec fn gt_spec(self, other: Scalar) -> bool {
        other.lt_spec(self)
    }

    /// `self >= other` as IEEE 754 has it: false when either is a NaN.
    pub open spec fn ge_spec(self, other: Scalar) -> bool {
        other.le_spec(self)
    }

    /// The number with its sign bit flipped.
    pub open spec fn neg_spec(self) -> Scalar {
        if self.bits >= SIGN_BIT {
            Scalar { bits: (self.bits - SIGN_BIT) as u32 }
        } else {
            Scalar { bits: (self.bits + SIGN_BIT) as u32 }
        }
    }

    /// The smaller of two numbers; where one of them is a NaN, the other.
    /// Of two numbers of the same value, `self`.
    pub open spec fn min_spec(self, other: Scalar) -> Scalar {
        if self.is_nan_spec() {
            other
        } else if other.lt_spec(self) {
            other
        } else {
            self
        }
    }

    /// The number as a whole number: rounded towards zero, and brought into
    /// the range of `i32` where it lies outside. A NaN gives zero.
    pub open spec fn truncate_spec(self) -> int {
        let whole = (units_of(self.magnitude_spec()) as int) / (pow2(149) as int);
        if self.is_nan_spec() {
            0
        } else if self.sign_spec() {
            if whole >= 0x8000_0000 {
                -0x8000_0000
            } else {
                -whole
            }
        } else {
            if whole >= 0x7FFF_FFFF {
                0x7FFF_FFFF
            } else {
                whole
            }
        }
    }

    /// Whether `self` lies in the closed interval from `low` to `high`.
    /// No NaN lies in any interval, and no number lies in one that a NaN bounds.
    pub open spec fn within_spec(self, low: Scalar, high: Scalar) -> bool {
        low.le_spec(self) && self.le_spec(high)
    }

    /// The number that `bits` encodes.
    pub fn from_bits(bits: u32) -> (r: Scalar)
        ensures
            r.bits == bits,
    {
        Scalar { bits }
    }

    /// The encoding of the number.
    pub fn to_bits(self) -> (r: u32)
        ensures
            r == self.bits,
    {
        self.bits
    }

    /// Positive zero.
    pub fn zero() -> (r: Scalar)
        ensures
            r.bits == 0,
            !r.is_nan_spec(),
            r.scaled() == 0,
    {
        Scalar { bits: 0 }
    }

    /// One.
    pub fn one() -> (r: Scalar)
        ensures
            r.bits == ONE_BITS,
            !r.is_nan_spec(),
            r.scaled() == pow2(149),
    {
        proof {
            lemma_units_of_one();
        }
        Scalar { bits: ONE_BITS }
    }

    /// Positive infinity.
    pub fn infinity() -> (r: Scalar)
        ensures
            r.bits == INFINITY_BITS,
            r.is_infinite_spec(),
            !r.sign_spec(),
            forall|x: Scalar| !x.is_nan_spec() ==> x.le_spec(r),
    {
        let r = Scalar { bits: INFINITY_BITS };
        proof {
            assert forall|x: Scalar| !x.is_nan_spec() implies x.le_spec(r) by {
                lemma_units_increase(x.magnitude_spec(), INFINITY_BITS);
            }
        }
        r
    }

    /// The encoding with the sign bit cleared.
    pub fn magnitude(self) -> (r: u32)
        ensures
            r == self.magnitude_spec(),
            r < SIGN_BIT,
    {
        if self.bits >= SIGN_BIT {
            self.bits - SIGN_BIT
        } else {
            self.bits
        }
    }

    /// Whether the sign bit is set.
    pub fn is_sign_negative(self) -> (r: bool)
        ensures
            r == self.sign_spec(),
    {
        self.bits >= SIGN_BIT
    }

    /// Whether the encoding is not a number.
    pub fn is_nan(self) -> (r: bool)
        ensures
            r == self.is_nan_spec(),
    {
        self.magnitude() > INFINITY_BITS
    }

    /// The encoding as a signed integer whose order is the order of the
    /// values: the magnitude, negated where the sign bit is set.
    fn rank(self) -> (r: i64)
        ensures
            r == self.rank_spec(),
    {
        let magnitude: u32 = self.magnitude();
        if self.bits >= SIGN_BIT {
            -(magnitude as i64)
        } else {
            magnitude as i64
        }
    }

    /// The integer that `rank` computes.
    pub open spec fn rank_spec(self) -> int {
        if self.sign_spec() {
            -(self.magnitude_spec() as int)
        } else {
            self.magnitude_spec() as int
        }
    }

    /// `self < other`, false when either is a NaN.
    pub fn lt(self, other: Scalar) -> (r: bool)
        ensures
            r == self.lt_spec(other),
    {
        proof {
            lemma_rank_orders_values(self, other);
        }
        !self.is_nan() && !other.is_nan() && self.rank() < other.rank()
    }

    /// `self <= other`, false when either is a NaN.
    pub fn le(self, other: Scalar) -> (r: bool)
        ensures
            r == self.le_spec(other),
    {
        proof {
            lemma_rank_orders_values(self, other);
        }
        !self.is_nan() && !other.is_nan() && self.rank() <= other.rank()
    }

    /// `self > other`, false when either is a NaN.
    pub fn gt(self, other: Scalar) -> (r: bool)
        ensures
            r == self.gt_spec(other),
    {
        other.lt(self)
    }

    /// `self >= other`, false when either is a NaN.
    pub fn ge(self, other: Scalar) -> (r: bool)
        ensures
            r == self.ge_spec(other),
    {
        other.le(self)
    }

    /// Whether `self` lies in the closed interval from `low` to `high`.
    pub fn within(self, low: Scalar, high: Scalar) -> (r: bool)
        ensures
            r == self.within_spec(low, high),
    {
        low.le(self) && self.le(high)
    }

    /// The smaller of two numbers, and the other one where one of them is a
    /// NaN: a number that is capped in this way is never above the cap.
    pub fn min(self, other: Scalar) -> (r: Scalar)
        ensures
            r == self.min_spec(other),
            !other.is_nan_spec() ==> r.le_spec(other),
            !self.is_nan_spec() ==> r.le_spec(self),
    {
        if self.is_nan() {
            other
        } else if other.lt(self) {
            other
        } else {
            self
        }
    }

    /// The number as a whole number, as a conversion to `i32` gives it: the
    /// part after the point is dropped, a number beyond the range of `i32`
    /// becomes the nearest end of the range, and a NaN becomes zero.
    pub fn truncate(self) -> (r: i32)
        ensures
            r == self.truncate_spec(),
    {
        if self.is_nan() {
            return 0;
        }
        let magnitude: u32 = self.magnitude();
        let exponent: u32 = magnitude / HIDDEN_BIT;
        let fraction: u32 = magnitude % HIDDEN_BIT;
        proof {
            lemma_whole_part(magnitude);
        }
        if exponent < 127 {
            return 0;
        }
        if exponent >= 158 {
            return if self.is_sign_negative() {
                i32::MIN
            } else {
                i32::MAX
            };
        }
        let significand: u64 = (HIDDEN_BIT + fraction) as u64;
        let whole: u64 = if exponent >= 150 {
            let shift: u64 = (exponent - 150) as u64;
            proof {
                lemma2_to64();
                if shift < 7 {
                    lemma_pow2_strictly_increases(shift as nat, 7);
                }
                lemma_mul_inequality(pow2(shift as nat) as int, 128, significand as int);
                lemma_mul_is_commutative(pow2(shift as nat) as int, significand as int);
                lemma_u64_shl_is_mul(significand, shift);
            }
            significand << shift
        } else {
            let shift: u64 = (150 - exponent) as u64;
            proof {
                lemma_u64_shr_is_div(significand, shift);
            }
            significand >> shift
        };
        assert(whole == (units_of(magnitude) as int) / (pow2(149) as int));
        assert(whole <= 0x8000_0000);
        if self.is_sign_negative() {
            (-(whole as i64)) as i32
        } else if whole >= 0x7FFF_FFFF {
            i32::MAX
        } else {
            whole as i32
        }
    }

    /// The number with its sign flipped. A NaN stays a NaN, a zero stays a
    /// zero, and every other value changes into its opposite.
    pub fn neg(self) -> (r: Scalar)
        ensures
            r == self.neg_spec(),
            r.magnitude_spec() == self.magnitude_spec(),
            r.sign_spec() == !self.sign_spec(),
            r.is_nan_spec() == self.is_nan_spec(),
            r.scaled() == -self.scaled(),
    {
        if self.bits >= SIGN_BIT {
            Scalar { bits: self.bits - SIGN_BIT }
        } else {
            Scalar { bits: self.bits + SIGN_BIT }
        }
    }
}

/// One is 2^149 units of 2^-149.
pub proof fn lemma_units_of_one()
    ensures
        units_of(ONE_BITS) == pow2(149),
{
    lemma2_to64();
    assert(ONE_BITS / HIDDEN_BIT == 127);
    assert(ONE_BITS % HIDDEN_BIT == 0);
    lemma_pow2_adds(23, 126);
    assert(pow2(23) == 0x0080_0000);
}

/// The infinities stand at plus and minus 2^277 units, and every finite
/// number lies strictly between them.
pub proof fn lemma_infinity_bounds_the_finite(x: Scalar)
    ensures
        x.is_finite_spec() ==> -pow2(277) < x.scaled() < pow2(277),
        x.is_infinite_spec() ==> x.scaled() == if x.sign_spec() {
            -pow2(277)
        } else {
            pow2(277) as int
        },
{
    lemma2_to64();
    assert(INFINITY_BITS / HIDDEN_BIT == 255);
    assert(INFINITY_BITS % HIDDEN_BIT == 0);
    lemma_pow2_adds(23, 254);
    lemma_units_increase(x.magnitude_spec(), INFINITY_BITS);
}

/// The whole part of a magnitude. Below one it is zero. From one on it is the
/// significand moved by the exponent: to the right while the exponent is
/// below 150, to the left from there on. From 2^31 on it is at least 2^31.
proof fn lemma_whole_part(magnitude: u32)
    ensures
        magnitude / HIDDEN_BIT < 127 ==> (units_of(magnitude) as int) / (pow2(149) as int) == 0,
        127 <= magnitude / HIDDEN_BIT < 150 ==> (units_of(magnitude) as int) / (pow2(149) as int)
            == (HIDDEN_BIT + magnitude % HIDDEN_BIT) / (pow2(
            (150 - magnitude / HIDDEN_BIT) as nat,
        ) as int),
        150 <= magnitude / HIDDEN_BIT ==> (units_of(magnitude) as int) / (pow2(149) as int) == (
        HIDDEN_BIT + magnitude % HIDDEN_BIT) * pow2((magnitude / HIDDEN_BIT - 150) as nat),
        158 <= magnitude / HIDDEN_BIT ==> (units_of(magnitude) as int) / (pow2(149) as int)
            >= 0x8000_0000,
        magnitude / HIDDEN_BIT < 158 ==> (units_of(magnitude) as int) / (pow2(149) as int)
            <= 0x8000_0000,
{
    let e = (magnitude / HIDDEN_BIT) as nat;
    let s = (HIDDEN_BIT + magnitude % HIDDEN_BIT) as int;
    let unit = pow2(149) as int;
    lemma2_to64();
    lemma_pow2_pos(149);
    lemma_units_bounds(magnitude);
    if e < 127 {
        // units < 2^23 * 2^e <= 2^23 * 2^126 = 2^149
        if e < 126 {
            lemma_pow2_strictly_increases(e, 126);
        }
        lemma_pow2_adds(23, 126);
        lemma_mul_inequality(pow2(e) as int, pow2(126) as int, HIDDEN_BIT as int);
        lemma_mul_is_commutative(HIDDEN_BIT as int, pow2(e) as int);
        lemma_mul_is_commutative(HIDDEN_BIT as int, pow2(126) as int);
        lemma_basic_div(units_of(magnitude) as int, unit);
    } else if e < 150 {
        let p = pow2((e - 1) as nat) as int;
        let q = pow2((150 - e) as nat) as int;
        lemma_pow2_adds((e - 1) as nat, (150 - e) as nat);
        lemma_pow2_pos((e - 1) as nat);
        lemma_pow2_pos((150 - e) as nat);
        assert(unit == p * q);
        assert(units_of(magnitude) == s * p);
        lemma_div_by_multiple(s, p);
        lemma_div_denominator(s * p, p, q);
    } else {
        let k = pow2((e - 150) as nat) as int;
        lemma_pow2_adds((e - 150) as nat, 149);
        lemma_pow2_pos((e - 150) as nat);
        assert(pow2((e - 1) as nat) == k * unit);
        assert(units_of(magnitude) == s * (k * unit));
        lemma_mul_is_associative(s, k, unit);
        lemma_mul_nonnegative(s, k);
        lemma_div_by_multiple(s * k, unit);
        if e >= 158 {
            // the significand is at least 2^23, and it is moved left by 8 or more
            if e > 158 {
                lemma_pow2_strictly_increases(8, (e - 150) as nat);
            }
            lemma_mul_inequality(256, k, HIDDEN_BIT as int);
            lemma_mul_is_commutative(k, HIDDEN_BIT as int);
            lemma_mul_inequality(HIDDEN_BIT as int, s, k);
        }
    }
    if 127 <= e < 158 {
        // at most 2^24 moved left by 7
        if e < 150 {
            lemma_pow2_pos((150 - e) as nat);
            lemma_div_is_ordered_by_denominator(s, 1, pow2((150 - e) as nat) as int);
        } else {
            let k = pow2((e - 150) as nat) as int;
            if e < 157 {
                lemma_pow2_strictly_increases((e - 150) as nat, 7);
            }
            lemma_mul_upper_bound(s, 0x0100_0000, k, 128);
        }
    }
}

/// A normal number's units, bounded by the powers of two at the ends of its
/// binade; a subnormal's lie below the first binade.
pub proof fn lemma_units_bounds(magnitude: u32)
    ensures
        magnitude / HIDDEN_BIT == 0 ==> units_of(magnitude) < HIDDEN_BIT,
        magnitude / HIDDEN_BIT > 0 ==> HIDDEN_BIT * pow2((magnitude / HIDDEN_BIT - 1) as nat)
            <= units_of(magnitude) < HIDDEN_BIT * pow2((magnitude / HIDDEN_BIT) as nat),
{
    let exponent = (magnitude / HIDDEN_BIT) as nat;
    let fraction = (magnitude % HIDDEN_BIT) as int;
    if exponent > 0 {
        let p = pow2((exponent - 1) as nat) as int;
        lemma_pow2_pos((exponent - 1) as nat);
        lemma_pow2_unfold(exponent);
        lemma_mul_inequality(HIDDEN_BIT as int, HIDDEN_BIT + fraction, p);
        lemma_mul_strict_inequality(HIDDEN_BIT + fraction, 2 * HIDDEN_BIT, p);
        assert((2 * HIDDEN_BIT) * p == HIDDEN_BIT * (2 * p)) by (nonlinear_arith);
    }
}

/// A larger encoding has more units: among numbers of one sign, the order of
/// the encodings is the order of the magnitudes.
pub proof fn lemma_units_increase(a: u32, b: u32)
    ensures
        a < b ==> units_of(a) < units_of(b),
        a == b ==> units_of(a) == units_of(b),
        a > b ==> units_of(a) > units_of(b),
{
    if a < b {
        lemma_units_strictly_increase(a, b);
    } else if b < a {
        lemma_units_strictly_increase(b, a);
    }
}

proof fn lemma_units_strictly_increase(a: u32, b: u32)
    requires
        a < b,
    ensures
        units_of(a) < units_of(b),
{
    let ea = (a / HIDDEN_BIT) as nat;
    let eb = (b / HIDDEN_BIT) as nat;
    let fa = (a % HIDDEN_BIT) as int;
    let fb = (b % HIDDEN_BIT) as int;
    assert(ea <= eb);
    if ea == eb {
        assert(fa < fb);
        if ea > 0 {
            let p = pow2((ea - 1) as nat) as int;
            lemma_pow2_pos((ea - 1) as nat);
            lemma_mul_strict_inequality(HIDDEN_BIT + fa, HIDDEN_BIT + fb, p);
        }
    } else {
        lemma_units_bounds(a);
        lemma_units_bounds(b);
        // units_of(a) lies below HIDDEN_BIT * 2^ea, and units_of(b) at or above
        // HIDDEN_BIT * 2^(eb - 1), which is no smaller.
        lemma_pow2_pos(0);
        assert(pow2(0) == 1) by {
            lemma2_to64();
        }
        if ea < eb - 1 {
            lemma_pow2_strictly_increases(ea, (eb - 1) as nat);
        }
        assert(pow2(ea) <= pow2((eb - 1) as nat));
        lemma_mul_inequality(pow2(ea) as int, pow2((eb - 1) as nat) as int, HIDDEN_BIT as int);
        assert(HIDDEN_BIT * pow2(ea) <= HIDDEN_BIT * pow2((eb - 1) as nat)) by {
            lemma_mul_is_commutative(HIDDEN_BIT as int, pow2(ea) as int);
            lemma_mul_is_commutative(HIDDEN_BIT as int, pow2((eb - 1) as nat) as int);
        }
        if ea == 0 {
            assert(HIDDEN_BIT * pow2(0) == HIDDEN_BIT);
        }
    }
}

/// The order of the signed encodings is the order of the values: for any two
/// encodings, NaN or not, `rank_spec` and `scaled` compare alike.
pub proof fn lemma_rank_orders_values(a: Scalar, b: Scalar)
    ensures
        a.rank_spec() < b.rank_spec() <==> a.scaled() < b.scaled(),
        a.rank_spec() == b.rank_spec() <==> a.scaled() == b.scaled(),
{
    lemma_units_increase(a.magnitude_spec(), b.magnitude_spec());
    lemma_units_increase(a.magnitude_spec(), 0);
    lemma_units_increase(b.magnitude_spec(), 0);
    assert(units_of(0) == 0);
}

} // verus!
