use beats::convert::{ceil, ceil_len, round, trunc};

const NUMBERS: [f64; 24] = [
    0.0, -0.0, 5e-324, 0.25, 0.49999999999999994, 0.5, 0.75, 1.0, 1.5, 2.5, 3.0, 44099.5, 1e9,
    4503599627370495.5, 4503599627370497.0, 9007199254740993.0, 1.8446744073709550e19,
    1.8446744073709552e19, 1e300, f64::INFINITY, f64::NEG_INFINITY, -0.3, -7.5, f64::NAN,
];

#[test]
fn conversions_are_those_of_the_machine() {
    for x in NUMBERS {
        assert_eq!(trunc(x.to_bits()), x as usize, "{x}");
        assert_eq!(ceil(x.to_bits()), x.ceil() as u64, "{x}");
        assert_eq!(ceil_len(x.to_bits()), x.ceil() as usize, "{x}");
        assert_eq!(round(x.to_bits()), x.round() as usize, "{x}");
    }
}

#[test]
fn conversions_of_given_numbers() {
    let of = |x: f64| (trunc(x.to_bits()), ceil(x.to_bits()), round(x.to_bits()));
    assert_eq!(of(2.5), (2, 3, 3));
    assert_eq!(of(2.25), (2, 3, 2));
    assert_eq!(of(8.0), (8, 8, 8));
    assert_eq!(of(-1.0), (0, 0, 0));
    assert_eq!(of(f64::INFINITY), (usize::MAX, u64::MAX, usize::MAX));
}

#[test]
fn conversions_keep_the_order() {
    let mut numbers: Vec<f64> = NUMBERS.iter().copied().filter(|x| !x.is_nan()).collect();
    numbers.sort_by(|a, b| a.partial_cmp(b).unwrap());
    for pair in numbers.windows(2) {
        let (a, b) = (pair[0].to_bits(), pair[1].to_bits());
        assert!(trunc(a) <= trunc(b) && ceil(a) <= ceil(b) && round(a) <= round(b));
        assert!(trunc(a) <= ceil_len(a));
    }
}
