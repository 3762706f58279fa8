use path_tracer::integrator::{bounce, hit_interval, ray_color, Outcome, Step, SHADOW_BIAS_BITS};
use path_tracer::scalar::Scalar;

#[test]
fn depth_zero_is_black() {
    assert_eq!(ray_color(0), Step::Black);
}

#[test]
fn negative_depth_is_black() {
    assert_eq!(ray_color(-1), Step::Black);
    assert_eq!(ray_color(i32::MIN), Step::Black);
}

#[test]
fn positive_depth_is_traced() {
    assert_eq!(ray_color(1), Step::Trace { depth: 1 });
    assert_eq!(ray_color(50), Step::Trace { depth: 50 });
    assert_eq!(ray_color(i32::MAX), Step::Trace { depth: i32::MAX });
}

#[test]
fn a_miss_brings_the_background() {
    assert_eq!(bounce(10, Outcome::Missed), Step::Background);
    assert_eq!(bounce(1, Outcome::Missed), Step::Background);
}

#[test]
fn an_absorbed_ray_is_black() {
    assert_eq!(bounce(10, Outcome::Absorbed), Step::Black);
    assert_eq!(bounce(1, Outcome::Absorbed), Step::Black);
}

#[test]
fn a_scattered_ray_has_one_bounce_fewer() {
    assert_eq!(bounce(10, Outcome::Scattered), Step::Trace { depth: 9 });
    assert_eq!(bounce(2, Outcome::Scattered), Step::Trace { depth: 1 });
}

#[test]
fn the_last_bounce_ends_in_black() {
    assert_eq!(bounce(1, Outcome::Scattered), Step::Black);
}

#[test]
fn without_depth_nothing_is_looked_at() {
    for outcome in [Outcome::Missed, Outcome::Absorbed, Outcome::Scattered] {
        assert_eq!(bounce(0, outcome), Step::Black);
        assert_eq!(bounce(-3, outcome), Step::Black);
        assert_eq!(bounce(i32::MIN, outcome), Step::Black);
    }
}

#[test]
fn a_ray_is_traced_at_most_depth_times() {
    for depth in 0..20 {
        let mut step = ray_color(depth);
        let mut traced = 0;
        while let Step::Trace { depth: left } = step {
            traced += 1;
            step = bounce(left, Outcome::Scattered);
        }
        assert_eq!(traced, depth);
        assert_eq!(step, Step::Black);
    }
}

#[test]
fn the_interval_runs_from_the_shadow_bias_to_infinity() {
    let (low, high) = hit_interval();
    assert_eq!(low, Scalar::from_bits(0.001f32.to_bits()));
    assert_eq!(low.to_bits(), SHADOW_BIAS_BITS);
    assert_eq!(high, Scalar::from_bits(f32::INFINITY.to_bits()));
}
