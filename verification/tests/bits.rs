use beats::bits::{
    f32_abs, f32_is_nan, f32_key, f32_max, f64_clamp, f64_is_finite, f64_is_nan, f64_key, f64_le,
    f64_lt, f64_max, f64_min,
};

const DOUBLES: [f64; 11] = [
    f64::NEG_INFINITY,
    -1.5e300,
    -2.0,
    -1e-310,
    -0.0,
    0.0,
    4.9e-324,
    0.03,
    1.0,
    1.7e308,
    f64::INFINITY,
];

#[test]
fn double_keys_order_as_doubles_do() {
    for a in DOUBLES {
        for b in DOUBLES {
            assert_eq!(f64_key(a.to_bits()) < f64_key(b.to_bits()), a < b);
            assert_eq!(f64_key(a.to_bits()) == f64_key(b.to_bits()), a == b);
            assert_eq!(f64_le(a.to_bits(), b.to_bits()), a <= b);
            assert_eq!(f64_lt(a.to_bits(), b.to_bits()), a < b);
        }
    }
}

#[test]
fn not_a_number_compares_with_nothing() {
    let nan = f64::NAN.to_bits();
    for a in DOUBLES {
        assert!(!f64_le(nan, a.to_bits()));
        assert!(!f64_le(a.to_bits(), nan));
        assert!(!f64_lt(nan, a.to_bits()));
        assert!(!f64_lt(a.to_bits(), nan));
        assert!(!f64_is_nan(a.to_bits()));
        assert_eq!(f64_is_finite(a.to_bits()), a.is_finite());
    }
    assert!(f64_is_nan(nan));
    assert!(f64_is_nan((-f64::NAN).to_bits()));
    assert!(!f64_is_finite(nan));
}

#[test]
fn single_keys_order_as_singles_do() {
    let singles = [f32::NEG_INFINITY, -3.5f32, -1e-44, -0.0, 0.0, 1e-44, 0.25, 1.0, f32::INFINITY];
    for a in singles {
        for b in singles {
            assert_eq!(f32_key(a.to_bits()) < f32_key(b.to_bits()), a < b);
            assert_eq!(f32_key(a.to_bits()) == f32_key(b.to_bits()), a == b);
        }
        assert_eq!(f32_abs(a.to_bits()), a.abs().to_bits());
        assert!(!f32_is_nan(a.to_bits()));
    }
    assert!(f32_is_nan(f32::NAN.to_bits()));
}

#[test]
fn greater_single_wins_and_numbers_beat_others() {
    let max = |a: f32, b: f32| f32::from_bits(f32_max(a.to_bits(), b.to_bits()));
    assert_eq!(max(0.25, 0.5), 0.5);
    assert_eq!(max(0.5, -0.75), 0.5);
    assert_eq!(max(f32::NAN, 0.5), 0.5);
    assert_eq!(max(0.5, f32::NAN), 0.5);
    assert!(max(f32::NAN, f32::NAN).is_nan());
}

#[test]
fn doubles_are_limited() {
    let clamp = |x: f64| f64::from_bits(f64_clamp(x.to_bits(), 0.25f64.to_bits(), 4.0f64.to_bits()));
    for x in [-1.0, 0.25, 1.0, 3.99, 4.0, 1e300, f64::INFINITY, f64::NEG_INFINITY] {
        assert_eq!(clamp(x), x.clamp(0.25, 4.0));
    }
    assert!(clamp(f64::NAN).is_nan());
    let max = |a: f64, b: f64| f64::from_bits(f64_max(a.to_bits(), b.to_bits()));
    let min = |a: f64, b: f64| f64::from_bits(f64_min(a.to_bits(), b.to_bits()));
    assert_eq!(min(-2.0, 0.0), -2.0);
    assert_eq!(min(f64::NAN, 3.0), 3.0);
    assert_eq!(min(3.0, f64::NAN), 3.0);
    assert_eq!(max(-2.0, 0.0), 0.0);
    assert_eq!(max(0.5, 0.05), 0.5);
    assert_eq!(max(f64::NAN, 0.05), 0.05);
    assert_eq!(max(0.05, f64::NAN), 0.05);
}
