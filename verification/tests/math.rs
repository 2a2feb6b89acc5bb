use cpu_raytracer::math::{clamp, clamp01};

#[test]
fn clamp_keeps_a_value_inside() {
    assert_eq!(clamp(5u32, 1u32, 10u32), 5);
    assert_eq!(clamp(1u32, 1u32, 10u32), 1);
    assert_eq!(clamp(10u32, 1u32, 10u32), 10);
}

#[test]
fn clamp_raises_a_value_below() {
    assert_eq!(clamp(-5i64, 1i64, 10i64), 1);
    assert_eq!(clamp(0u8, 3u8, 9u8), 3);
}

#[test]
fn clamp_lowers_a_value_above() {
    assert_eq!(clamp(50u8, 1u8, 10u8), 10);
    assert_eq!(clamp(i32::MAX, -1i32, 1i32), 1);
}

#[test]
fn clamp_tests_the_upper_bound_first() {
    // With the bounds the wrong way round a value between them is above
    // `max`, and a value below both is still below `min`.
    assert_eq!(clamp(5u32, 10u32, 1u32), 1);
    assert_eq!(clamp(0u32, 10u32, 1u32), 10);
    assert_eq!(clamp(20u32, 10u32, 1u32), 1);
}

#[test]
fn clamp_on_fractions() {
    assert_eq!(clamp(0.25f32, 0.0f32, 1.0f32), 0.25);
    assert_eq!(clamp(-0.25f64, 0.0f64, 1.0f64), 0.0);
    assert_eq!(clamp(7.5f64, 0.0f64, 1.0f64), 1.0);
}

#[test]
fn clamp_hands_back_what_compares_with_nothing() {
    assert!(clamp(f32::NAN, 0.0f32, 1.0f32).is_nan());
}

#[test]
fn clamp_on_strings() {
    assert_eq!(clamp("m", "c", "k"), "k");
    assert_eq!(clamp("a", "c", "k"), "c");
    assert_eq!(clamp("d", "c", "k"), "d");
}

#[test]
fn clamp01_on_integers() {
    assert_eq!(clamp01(0u32), 0);
    assert_eq!(clamp01(1u32), 1);
    assert_eq!(clamp01(7u32), 1);
    assert_eq!(clamp01(-3i64), 0);
    assert_eq!(clamp01(200u8), 1);
}

#[test]
fn clamp01_on_fractions() {
    assert_eq!(clamp01(0.5f32), 0.5);
    assert_eq!(clamp01(-0.5f32), 0.0);
    assert_eq!(clamp01(1.5f32), 1.0);
    assert_eq!(clamp01(0.0f64), 0.0);
    assert_eq!(clamp01(1.0f64), 1.0);
    assert_eq!(clamp01(f64::INFINITY), 1.0);
    assert_eq!(clamp01(f64::NEG_INFINITY), 0.0);
    assert!(clamp01(f64::NAN).is_nan());
}
