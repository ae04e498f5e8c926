use exponential_histogram::otel_index_from_bits;

#[test]
fn test_otel_index_calculation() {
    // Test scale 0 (base = 2)
    assert_eq!(otel_index_from_bits(1.5f64.to_bits(), 0), 0); // (1, 2]
    assert_eq!(otel_index_from_bits(2.5f64.to_bits(), 0), 1); // (2, 4]
    assert_eq!(otel_index_from_bits(5.0f64.to_bits(), 0), 2); // (4, 8]

    // Test fractional values
    assert_eq!(otel_index_from_bits(0.5f64.to_bits(), 0), -1); // (0.5, 1]
    assert_eq!(otel_index_from_bits(0.25f64.to_bits(), 0), -2); // (0.25, 0.5]
}

#[test]
fn negative_scales_divide_the_exponent_rounding_down() {
    assert_eq!(otel_index_from_bits(5.0f64.to_bits(), -1), 1);
    assert_eq!(otel_index_from_bits(5.0f64.to_bits(), -2), 0);
    assert_eq!(otel_index_from_bits(0.25f64.to_bits(), -1), -1);
    assert_eq!(otel_index_from_bits(0.125f64.to_bits(), -1), -2);
    assert_eq!(otel_index_from_bits(0.125f64.to_bits(), -2), -1);
    assert_eq!(otel_index_from_bits(1.0e300f64.to_bits(), -31), 0);
    assert_eq!(otel_index_from_bits(1.0e-300f64.to_bits(), -31), -1);
}

#[test]
fn downscaling_halves_the_index() {
    for &v in &[0.001f64, 0.3, 1.0, 7.0, 1.0e10, 1.0e-10] {
        for s in -30..=0 {
            let fine = otel_index_from_bits(v.to_bits(), s);
            let coarse = otel_index_from_bits(v.to_bits(), s - 1);
            assert_eq!(coarse, fine.div_euclid(2));
        }
    }
}

#[test]
fn larger_values_never_get_lower_indices() {
    let values = [1.0e-5f64, 0.001, 0.5, 0.75, 1.0, 3.0, 1024.0, 1.0e20];
    for s in [-3, -1, 0] {
        for w in values.windows(2) {
            assert!(otel_index_from_bits(w[0].to_bits(), s) <= otel_index_from_bits(w[1].to_bits(), s));
        }
    }
}

#[test]
fn subnormal_and_extreme_exponents() {
    assert_eq!(otel_index_from_bits(f64::MIN_POSITIVE.to_bits(), 0), -1022);
    assert_eq!(otel_index_from_bits(5.0e-324f64.to_bits(), 0), -1023);
    assert_eq!(otel_index_from_bits(f64::MAX.to_bits(), 0), 1023);
}
