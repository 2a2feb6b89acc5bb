use cpu_raytracer::random::{RngXorShift, FRACTION_MASK, ONE_BITS, TWO_BITS};

#[test]
fn first_words_from_seed_one() {
    let mut rng = RngXorShift::new(1);
    assert_eq!(rng.xor_shift(), 270369);
    assert_eq!(rng.xor_shift(), 67634689);
    assert_eq!(rng.xor_shift(), 2647435461);
    assert_eq!(rng.xor_shift(), 307599695);
    assert_eq!(rng.xor_shift(), 2398689233);
}

#[test]
fn first_words_from_the_classic_seed() {
    let mut rng = RngXorShift::new(2463534242);
    assert_eq!(rng.xor_shift(), 723471715);
    assert_eq!(rng.xor_shift(), 2497366906);
    assert_eq!(rng.xor_shift(), 2064144800);
}

#[test]
fn first_words_from_the_render_seed() {
    let mut rng = RngXorShift::new(58727590);
    assert_eq!(rng.xor_shift(), 42944812);
    assert_eq!(rng.xor_shift(), 2667389913);
    assert_eq!(rng.xor_shift(), 1782959578);
    assert_eq!(rng.xor_shift(), 2887934085);
    assert_eq!(rng.xor_shift(), 3865355036);
}

#[test]
fn step_from_all_ones() {
    let mut rng = RngXorShift::new(u32::MAX);
    assert_eq!(rng.xor_shift(), 253983);
}

#[test]
fn same_seed_same_words() {
    let mut first = RngXorShift::new(58727590);
    let mut second = RngXorShift::new(58727590);
    for _ in 0..10_000 {
        assert_eq!(first.xor_shift(), second.xor_shift());
    }
}

#[test]
fn same_seed_same_patterns() {
    let mut first = RngXorShift::new(7);
    let mut second = RngXorShift::new(7);
    for _ in 0..10_000 {
        assert_eq!(first.unit_bits(), second.unit_bits());
    }
}

#[test]
fn different_seeds_differ_at_once() {
    let mut first = RngXorShift::new(1);
    let mut second = RngXorShift::new(2);
    assert_ne!(first.xor_shift(), second.xor_shift());
}

#[test]
fn words_are_never_zero() {
    let mut rng = RngXorShift::new(1);
    for _ in 0..100_000 {
        assert_ne!(rng.xor_shift(), 0);
    }
}

#[test]
fn pattern_is_made_of_the_next_word() {
    let mut words = RngXorShift::new(58727590);
    let mut patterns = RngXorShift::new(58727590);
    for _ in 0..1_000 {
        let word: u32 = words.xor_shift();
        let bits: u32 = patterns.unit_bits();
        assert_eq!(bits, (word & 0x007f_ffff) | 0x3f80_0000);
    }
}

#[test]
fn first_pattern_from_the_render_seed() {
    let mut rng = RngXorShift::new(58727590);
    assert_eq!(rng.unit_bits(), 0x3f8f_492c);
}

#[test]
fn pattern_draw_takes_one_step() {
    let mut rng = RngXorShift::new(1);
    let _ = rng.unit_bits();
    assert_eq!(rng.xor_shift(), 67634689);
}

#[test]
fn patterns_lie_from_one_up_to_two() {
    let mut rng = RngXorShift::new(99);
    for _ in 0..10_000 {
        let bits: u32 = rng.unit_bits();
        assert!(ONE_BITS <= bits && bits < TWO_BITS);
        let value: f32 = f32::from_bits(bits);
        assert!(1.0 <= value && value < 2.0);
    }
}

#[test]
fn pattern_constants() {
    assert_eq!(FRACTION_MASK, 0x007f_ffff);
    assert_eq!(f32::from_bits(ONE_BITS), 1.0);
    assert_eq!(f32::from_bits(TWO_BITS), 2.0);
    assert_eq!(ONE_BITS & FRACTION_MASK, 0);
}
