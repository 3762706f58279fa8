//! Triples of scalars (points, directions and colours) and what the tracer
//! decides about them without arithmetic: whether a direction is degenerate,
//! whether a random sample is kept, which way a sample is turned, and which
//! byte a colour channel becomes.

use crate::scalar::{lemma_units_bounds, lemma_units_increase, units_of, Scalar, HIDDEN_BIT, ONE_BITS};
use vstd::arithmetic::div_mod::{
    lemma_basic_div, lemma_div_by_multiple, lemma_div_denominator, lemma_div_is_ordered,
    lemma_div_is_ordered_by_denominator,
};
use vstd::arithmetic::power2::{
    lemma2_to64, lemma2_to64_rest, lemma_pow2_adds, lemma_pow2_pos, lemma_pow2_strictly_increases,
    pow2,
};
use vstd::bits::lemma_u32_shr_is_div;
use vstd::prelude::*;

verus! {

/// The encoding of the binary32 number nearest to 10^-8, below which a
/// component counts as zero.
pub const NEAR_ZERO_BITS: u32 = 0x322B_CC77;

/// The encoding of the binary32 number nearest to 0.999, the brightest a
/// colour channel may be before it is scaled to a byte.
pub const CEILING_BITS: u32 = 0x3F7F_BE77;

/// Three scalars: a point, a direction or a colour.
#[derive(Clone, Copy, Debug, PartialEq, Eq, Structural)]
pub struct Vec3 {
    pub x: Scalar,
    pub y: Scalar,
    pub z: Scalar,
}

/// A position in space.
pub type Point3 = Vec3;

/// Red, green and blue.
pub type Color = Vec3;

impl Vec3 {
    /// The vector with every component's sign flipped.
    pub open spec fn neg_spec(self) -> Vec3 {
        Vec3 { x: self.x.neg_spec(), y: self.y.neg_spec(), z: self.z.neg_spec() }
    }

    /// The vector with the given components.
    pub fn new(x: Scalar, y: Scalar, z: Scalar) -> (r: Vec3)
        ensures
            r == (Vec3 { x, y, z }),
    {
        Vec3 { x, y, z }
    }

    /// The vector whose components are all positive zero: the origin, and black.
    pub fn zero() -> (r: Vec3)
        ensures
            r == (Vec3 { x: Scalar { bits: 0 }, y: Scalar { bits: 0 }, z: Scalar { bits: 0 } }),
    {
        Vec3 { x: Scalar::zero(), y: Scalar::zero(), z: Scalar::zero() }
    }

    /// The vector whose components are all one: white, and no attenuation.
    pub fn one() -> (r: Vec3)
        ensures
            r == (Vec3 {
                x: Scalar { bits: ONE_BITS },
                y: Scalar { bits: ONE_BITS },
                z: Scalar { bits: ONE_BITS },
            }),
    {
        Vec3 { x: Scalar::one(), y: Scalar::one(), z: Scalar::one() }
    }

    /// The opposite vector: every component's value changes sign.
    pub fn neg(self) -> (r: Vec3)
        ensures
            r == self.neg_spec(),
            r.x.scaled() == -self.x.scaled(),
            r.y.scaled() == -self.y.scaled(),
            r.z.scaled() == -self.z.scaled(),
    {
        Vec3 { x: self.x.neg(), y: self.y.neg(), z: self.z.neg() }
    }
}

/// Whether a component is a number of absolute value below the threshold of
/// `near_zero`.
pub open spec fn negligible(x: Scalar) -> bool {
    let size = if x.scaled() < 0 {
        -x.scaled()
    } else {
        x.scaled()
    };
    !x.is_nan_spec() && size < (Scalar { bits: NEAR_ZERO_BITS }).scaled()
}

/// Whether every component of `v` is a number of absolute value below the
/// threshold.
pub open spec fn near_zero_spec(v: Vec3) -> bool {
    negligible(v.x) && negligible(v.y) && negligible(v.z)
}

fn is_negligible(x: Scalar) -> (r: bool)
    ensures
        r == negligible(x),
{
    proof {
        lemma_units_increase(x.magnitude_spec(), NEAR_ZERO_BITS);
    }
    x.magnitude() < NEAR_ZERO_BITS
}

/// True if and only if every component of `v` is smaller in absolute value
/// than the binary32 number nearest to 10^-8. A direction that is near zero is
/// too short to aim a ray with.
pub fn near_zero(v: Vec3) -> (r: bool)
    ensures
        r == near_zero_spec(v),
{
    is_negligible(v.x) && is_negligible(v.y) && is_negligible(v.z)
}

/// The threshold of `near_zero` is, of all binary32 numbers, the one nearest
/// to 10^-8: they differ by less than half the spacing of the numbers around
/// it, which is 2^99 units of 2^-149.
pub proof fn lemma_near_zero_threshold()
    ensures
        units_of(NEAR_ZERO_BITS) == 11258999 * pow2(99),
        2 * (pow2(149) - 100_000_000 * units_of(NEAR_ZERO_BITS)) < 100_000_000 * pow2(99),
        100_000_000 * units_of(NEAR_ZERO_BITS) <= pow2(149),
{
    assert(NEAR_ZERO_BITS / HIDDEN_BIT == 100);
    assert(NEAR_ZERO_BITS % HIDDEN_BIT == 0x2B_CC77);
    lemma2_to64();
    lemma2_to64_rest();
    lemma_pow2_adds(50, 99);
    let p = pow2(99) as int;
    lemma_pow2_pos(99);
    assert(pow2(149) == 1125899906842624 * p);
    assert(100_000_000 * (11258999 * p) == 1125899900000000 * p) by (nonlinear_arith);
    assert(2 * (1125899906842624 * p - 1125899900000000 * p) == 13685248 * p)
        by (nonlinear_arith);
    assert(13685248 * p < 100_000_000 * p) by (nonlinear_arith)
        requires
            p > 0,
    ;
    assert(1125899900000000 * p <= 1125899906842624 * p) by (nonlinear_arith)
        requires
            p > 0,
    ;
}

/// Whether a sample with the given squared length lies inside the unit
/// sphere: whether the squared length is a number below one.
pub open spec fn inside_unit_sphere(length_squared: Scalar) -> bool {
    length_squared.lt_spec(Scalar { bits: ONE_BITS })
}

/// One round of the rejection sampling of the unit ball. `candidate` was
/// drawn from the cube around the ball, each component from -1 to 1, and
/// `length_squared` is its squared length. The candidate is kept exactly when
/// it lies inside the unit sphere; the caller draws again until one is kept,
/// which makes the samples uniform over the ball.
pub fn random_in_unit_sphere(candidate: Vec3, length_squared: Scalar) -> (r: Option<Vec3>)
    ensures
        r == if inside_unit_sphere(length_squared) {
            Some(candidate)
        } else {
            None
        },
        r is Some ==> !length_squared.is_nan_spec() && length_squared.scaled() < pow2(149),
{
    if length_squared.lt(Scalar::one()) {
        Some(candidate)
    } else {
        None
    }
}

/// One round of the rejection sampling of the unit disk, for a point of the
/// lens. `x` and `y` were drawn from the square around the disk, each from -1
/// to 1, and `length_squared` is the sum of their squares. The point is kept
/// exactly when it lies inside the unit circle, and its third component is
/// zero.
pub fn random_in_unit_disk(x: Scalar, y: Scalar, length_squared: Scalar) -> (r: Option<Vec3>)
    ensures
        r == if inside_unit_sphere(length_squared) {
            Some(Vec3 { x, y, z: Scalar { bits: 0 } })
        } else {
            None
        },
{
    if length_squared.lt(Scalar::one()) {
        Some(Vec3 { x, y, z: Scalar::zero() })
    } else {
        None
    }
}

/// A sample from the unit sphere, turned into the hemisphere around a normal:
/// kept as it is where its dot product with the normal, `facing`, is above
/// zero, and reversed otherwise.
pub fn random_in_hemisphere(in_unit_sphere: Vec3, facing: Scalar) -> (r: Vec3)
    ensures
        r == if facing.gt_spec(Scalar { bits: 0 }) {
            in_unit_sphere
        } else {
            in_unit_sphere.neg_spec()
        },
{
    if facing.gt(Scalar::zero()) {
        in_unit_sphere
    } else {
        in_unit_sphere.neg()
    }
}

/// The cosine of the angle between a ray and a surface normal, from the dot
/// product of the two unit vectors: the dot product capped at one, which it
/// can exceed only through rounding. Where the dot product is a NaN the
/// cosine is one.
pub fn cos_theta(dot: Scalar) -> (r: Scalar)
    ensures
        r == dot.min_spec(Scalar { bits: ONE_BITS }),
        r.le_spec(Scalar { bits: ONE_BITS }),
{
    dot.min(Scalar::one())
}

/// The units of a channel after it is clamped to the interval from zero to the
/// ceiling. A NaN counts as zero, as it does when it is converted to a byte.
pub open spec fn clamped_units(x: Scalar) -> nat {
    if x.is_nan_spec() || x.scaled() <= 0 {
        0
    } else if x.scaled() >= units_of(CEILING_BITS) {
        units_of(CEILING_BITS)
    } else {
        x.scaled() as nat
    }
}

/// The byte of a gamma-corrected channel: the channel clamped to the interval
/// from zero to the ceiling, multiplied by 256 and rounded down.
pub open spec fn channel_spec(x: Scalar) -> int {
    byte_of_units(clamped_units(x))
}

/// 256 times a number of units of 2^-149, rounded down to a whole number.
pub open spec fn byte_of_units(units: nat) -> int {
    (256 * (units as int)) / (pow2(149) as int)
}

/// Of a number below 2^-8, 256 times the number is below one; of a larger one
/// below one, 256 times the number, rounded down, is the significand shifted
/// right.
proof fn lemma_scaled_to_byte(magnitude: u32)
    requires
        magnitude / HIDDEN_BIT <= 126,
    ensures
        magnitude / HIDDEN_BIT < 119 ==> byte_of_units(units_of(magnitude)) == 0,
        magnitude / HIDDEN_BIT >= 119 ==> byte_of_units(units_of(magnitude)) == (HIDDEN_BIT
            + magnitude % HIDDEN_BIT) / (pow2((142 - magnitude / HIDDEN_BIT) as nat) as int),
{
    let e = (magnitude / HIDDEN_BIT) as nat;
    lemma2_to64();
    if e < 119 {
        lemma_units_bounds(magnitude);
        // units < 2^23 * 2^e <= 2^23 * 2^118, and 256 * 2^23 * 2^118 = 2^149
        if e < 118 {
            lemma_pow2_strictly_increases(e, 118);
        }
        lemma_pow2_adds(31, 118);
        let p = pow2(118) as int;
        let q = pow2(e) as int;
        assert(units_of(magnitude) < HIDDEN_BIT * q);
        assert(HIDDEN_BIT * q <= HIDDEN_BIT * p) by (nonlinear_arith)
            requires
                q <= p,
        ;
        assert(256 * (HIDDEN_BIT * p) == 0x8000_0000 * p) by (nonlinear_arith);
        assert(pow2(149) == 0x8000_0000 * p);
        lemma_basic_div(256 * (units_of(magnitude) as int), pow2(149) as int);
    } else {
        let s = (HIDDEN_BIT + magnitude % HIDDEN_BIT) as int;
        let low = pow2((e - 1) as nat) as int;
        let p = pow2(e + 7) as int;
        let q = pow2((142 - e) as nat) as int;
        lemma_pow2_adds(8, (e - 1) as nat);
        lemma_pow2_adds(e + 7, (142 - e) as nat);
        lemma_pow2_pos(e + 7);
        lemma_pow2_pos((142 - e) as nat);
        assert(p == 256 * low);
        assert(pow2(149) == p * q);
        assert(units_of(magnitude) == s * low);
        assert(256 * (s * low) == s * p) by (nonlinear_arith)
            requires
                p == 256 * low,
        ;
        lemma_div_by_multiple(s, p);
        lemma_div_denominator(s * p, p, q);
    }
}

/// The byte of a gamma-corrected channel: zero for a NaN and for anything at
/// or below zero, 255 for anything at or above the ceiling, and otherwise 256
/// times the channel, rounded down.
pub fn channel(x: Scalar) -> (r: u8)
    ensures
        r == channel_spec(x),
{
    proof {
        lemma_pow2_pos(149);
        lemma_basic_div(0, pow2(149) as int);
        assert(byte_of_units(0) == 0);
    }
    if x.is_nan() || x.is_sign_negative() {
        return 0;
    }
    let magnitude: u32 = x.magnitude();
    proof {
        lemma_units_increase(magnitude, CEILING_BITS);
        lemma_units_increase(magnitude, 0);
        assert(units_of(0) == 0);
        lemma_ceiling();
    }
    if magnitude >= CEILING_BITS {
        assert(clamped_units(x) == units_of(CEILING_BITS));
        return 255;
    }
    assert(clamped_units(x) == units_of(magnitude));
    let exponent: u32 = magnitude / HIDDEN_BIT;
    let fraction: u32 = magnitude % HIDDEN_BIT;
    proof {
        lemma_scaled_to_byte(magnitude);
    }
    if exponent < 119 {
        return 0;
    }
    let significand: u32 = HIDDEN_BIT + fraction;
    let shift: u32 = 142 - exponent;
    proof {
        lemma_u32_shr_is_div(significand, shift);
        lemma2_to64();
        // the shift is at least 16, and the significand is below 2^24
        if shift > 16 {
            lemma_pow2_strictly_increases(16, shift as nat);
        }
        assert(pow2(16) == 0x1_0000);
        lemma_div_is_ordered_by_denominator(
            significand as int,
            0x1_0000,
            pow2(shift as nat) as int,
        );
        assert(significand >> shift == byte_of_units(units_of(magnitude)));
        assert(significand >> shift <= significand as int / 0x1_0000 <= 255);
    }
    (significand >> shift) as u8
}

/// The ceiling is, of all binary32 numbers, the one nearest to 0.999 (they
/// differ by less than half the spacing of the numbers around it, which is
/// 2^125 units of 2^-149), and its byte is 255.
pub proof fn lemma_ceiling()
    ensures
        units_of(CEILING_BITS) == 16760439 * pow2(125),
        2 * (1000 * units_of(CEILING_BITS) - 999 * pow2(149)) < 1000 * pow2(125),
        999 * pow2(149) <= 1000 * units_of(CEILING_BITS),
        byte_of_units(units_of(CEILING_BITS)) == 255,
        channel_spec(Scalar { bits: CEILING_BITS }) == 255,
{
    assert(CEILING_BITS / HIDDEN_BIT == 126);
    assert(CEILING_BITS % HIDDEN_BIT == 0x7F_BE77);
    lemma2_to64();
    lemma_pow2_adds(24, 125);
    let p = pow2(125) as int;
    lemma_pow2_pos(125);
    assert(pow2(149) == 16777216 * p);
    assert(1000 * (16760439 * p) == 16760439000 * p) by (nonlinear_arith);
    assert(999 * (16777216 * p) == 16760438784 * p) by (nonlinear_arith);
    assert(2 * (16760439000 * p - 16760438784 * p) == 432 * p) by (nonlinear_arith);
    assert(432 * p < 1000 * p) by (nonlinear_arith)
        requires
            p > 0,
    ;
    assert(16760438784 * p <= 16760439000 * p) by (nonlinear_arith)
        requires
            p > 0,
    ;
    lemma_scaled_to_byte(CEILING_BITS);
    assert(pow2(16) == 0x1_0000);
    assert(16760439int / 0x1_0000 == 255);
    lemma_units_increase(CEILING_BITS, 0);
    assert(units_of(0) == 0);
}

/// A byte is a whole number from 0 to 255, and a brighter channel never has
/// the smaller byte.
pub proof fn lemma_channel_is_monotone(x: Scalar, y: Scalar)
    ensures
        0 <= channel_spec(x) <= 255,
        x.le_spec(y) ==> channel_spec(x) <= channel_spec(y),
{
    lemma_ceiling();
    lemma_pow2_pos(149);
    let top = units_of(CEILING_BITS);
    lemma_div_is_ordered(0, 256 * (clamped_units(x) as int), pow2(149) as int);
    lemma_div_is_ordered(256 * (clamped_units(x) as int), 256 * (top as int), pow2(149) as int);
    lemma_basic_div(0, pow2(149) as int);
    if x.le_spec(y) {
        assert(clamped_units(x) <= clamped_units(y));
        lemma_div_is_ordered(
            256 * (clamped_units(x) as int),
            256 * (clamped_units(y) as int),
            pow2(149) as int,
        );
    }
}

/// The three bytes of a pixel, from its colour after the sum of the samples
/// has been divided by their number and the square root taken: each channel
/// is clamped to the interval from zero to the ceiling, multiplied by 256 and
/// rounded down.
pub fn write_color(pixel_color: Color) -> (r: (u8, u8, u8))
    ensures
        r.0 == channel_spec(pixel_color.x),
        r.1 == channel_spec(pixel_color.y),
        r.2 == channel_spec(pixel_color.z),
{
    (channel(pixel_color.x), channel(pixel_color.y), channel(pixel_color.z))
}

} // verus!
