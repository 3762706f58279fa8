//! The recursion that follows a ray from bounce to bounce, as a machine: the
//! caller traces the ray and reports what became of it, and the machine says
//! whether to go on and with how many bounces left.

use crate::scalar::{units_of, Scalar, HIDDEN_BIT, INFINITY_BITS};
use vstd::arithmetic::power2::{lemma2_to64, lemma2_to64_rest, lemma_pow2_adds, lemma_pow2_pos, pow2};
use vstd::prelude::*;

verus! {

/// The encoding of the binary32 number nearest to 0.001: a hit nearer than
/// this to the start of a ray is the surface that the ray has just left.
pub const SHADOW_BIAS_BITS: u32 = 0x3A83_126F;

/// What became of a ray that was traced into the scene.
#[derive(Clone, Copy, Debug, PartialEq, Eq, Structural)]
pub enum Outcome {
    /// The ray hit nothing.
    Missed,
    /// The ray hit a surface, which swallowed it.
    Absorbed,
    /// The ray hit a surface, which sent it on.
    Scattered,
}

/// What to do with a ray.
#[derive(Clone, Copy, Debug, PartialEq, Eq, Structural)]
pub enum Step {
    /// Trace the ray into the scene; it may still bounce `depth` times, and
    /// `depth` is above zero.
    Trace { depth: i32 },
    /// The ray brings no light.
    Black,
    /// The ray brings the light of the background.
    Background,
}

/// What to do with a ray that may still bounce `depth` times.
pub open spec fn ray_color_spec(depth: i32) -> Step {
    if depth <= 0 {
        Step::Black
    } else {
        Step::Trace { depth }
    }
}

/// What to do with a ray that could still bounce `depth` times, once it has
/// been traced.
pub open spec fn bounce_spec(depth: i32, outcome: Outcome) -> Step {
    if depth <= 0 {
        Step::Black
    } else {
        match outcome {
            Outcome::Missed => Step::Background,
            Outcome::Absorbed => Step::Black,
            Outcome::Scattered => ray_color_spec((depth - 1) as i32),
        }
    }
}

/// Where the machine stands after a ray that was sent out with `depth`
/// bounces has met the first `n` of `outcomes`. Once the machine has stopped,
/// further outcomes change nothing.
pub open spec fn walk(depth: i32, outcomes: Seq<Outcome>, n: nat) -> Step
    decreases n,
{
    if n == 0 {
        ray_color_spec(depth)
    } else {
        match walk(depth, outcomes, (n - 1) as nat) {
            Step::Trace { depth: left } => bounce_spec(left, outcomes[n - 1]),
            stopped => stopped,
        }
    }
}

/// What to do with a ray that may still bounce `depth` times: trace it, or,
/// with no bounce left, take it as black whatever the scene holds.
pub fn ray_color(depth: i32) -> (r: Step)
    ensures
        r == ray_color_spec(depth),
        depth <= 0 ==> r == Step::Black,
        depth > 0 ==> r == (Step::Trace { depth }),
{
    if depth <= 0 {
        Step::Black
    } else {
        Step::Trace { depth }
    }
}

/// What to do once a ray that could still bounce `depth` times has been
/// traced. A ray that hit nothing brings the background; one that was
/// absorbed brings nothing; one that was scattered brings what the scattered
/// ray brings, multiplied by the attenuation, and the scattered ray has one
/// bounce fewer.
pub fn bounce(depth: i32, outcome: Outcome) -> (r: Step)
    ensures
        r == bounce_spec(depth, outcome),
        r matches Step::Trace { depth: left } ==> 0 < left && left == depth - 1,
{
    if depth <= 0 {
        return Step::Black;
    }
    match outcome {
        Outcome::Missed => Step::Background,
        Outcome::Absorbed => Step::Black,
        Outcome::Scattered => ray_color(depth - 1),
    }
}

/// The interval of ray parameters in which the integrator looks for hits: from
/// the shadow bias to infinity.
pub fn hit_interval() -> (r: (Scalar, Scalar))
    ensures
        r.0.bits == SHADOW_BIAS_BITS,
        r.1.bits == INFINITY_BITS,
        forall|t: Scalar| t.within_spec(r.0, r.1) <==> r.0.le_spec(t),
{
    let high = Scalar::infinity();
    let low = Scalar::from_bits(SHADOW_BIAS_BITS);
    proof {
        assert(!high.is_nan_spec());
        assert(!low.is_nan_spec());
    }
    (low, high)
}

/// The shadow bias is, of all binary32 numbers, the one nearest to 0.001: they
/// differ by less than half the spacing of the numbers around it, which is
/// 2^116 units of 2^-149.
pub proof fn lemma_shadow_bias()
    ensures
        units_of(SHADOW_BIAS_BITS) == 8589935 * pow2(116),
        2 * (1000 * units_of(SHADOW_BIAS_BITS) - pow2(149)) < 1000 * pow2(116),
        pow2(149) <= 1000 * units_of(SHADOW_BIAS_BITS),
{
    assert(SHADOW_BIAS_BITS / HIDDEN_BIT == 117);
    assert(SHADOW_BIAS_BITS % HIDDEN_BIT == 0x03_126F);
    lemma2_to64();
    lemma2_to64_rest();
    lemma_pow2_adds(33, 116);
    let p = pow2(116) as int;
    lemma_pow2_pos(116);
    assert(pow2(149) == 8589934592 * p);
    assert(1000 * (8589935 * p) == 8589935000 * p) by (nonlinear_arith);
    assert(2 * (8589935000 * p - 8589934592 * p) == 816 * p) by (nonlinear_arith);
    assert(816 * p < 1000 * p) by (nonlinear_arith)
        requires
            p > 0,
    ;
    assert(8589934592 * p <= 8589935000 * p) by (nonlinear_arith)
        requires
            p > 0,
    ;
}

/// While the machine still traces, every outcome so far was a scattering, and
/// each took one bounce away.
pub proof fn lemma_walk_counts_bounces(depth: i32, outcomes: Seq<Outcome>, n: nat)
    ensures
        walk(depth, outcomes, n) matches Step::Trace { depth: left } ==> {
            &&& left == depth - n
            &&& 0 < left
            &&& forall|i: int| 0 <= i < n ==> outcomes[i] == Outcome::Scattered
        },
    decreases n,
{
    if n > 0 {
        lemma_walk_counts_bounces(depth, outcomes, (n - 1) as nat);
    }
}

/// A ray that is sent out with `depth` bounces is traced at most `depth`
/// times: after that many outcomes the machine has stopped, whatever they
/// were. With no bounce to begin with the ray is black and never traced.
pub proof fn lemma_walk_stops(depth: i32, outcomes: Seq<Outcome>, n: nat)
    requires
        n >= depth,
    ensures
        !(walk(depth, outcomes, n) is Trace),
        depth <= 0 ==> walk(depth, outcomes, n) == Step::Black,
    decreases n,
{
    lemma_walk_counts_bounces(depth, outcomes, n);
    if n > 0 && depth <= 0 {
        lemma_walk_stops(depth, outcomes, (n - 1) as nat);
    }
}

} // verus!
