use knn::total_order::{is_infinite, order_key};

#[test]
fn order_key_follows_total_cmp() {
    let values = [
        f64::NEG_INFINITY,
        -1.0e300,
        -2.5,
        -1.0,
        -f64::MIN_POSITIVE,
        -0.0,
        0.0,
        f64::MIN_POSITIVE,
        0.5,
        1.0,
        3.0,
        1.0e300,
        f64::INFINITY,
    ];
    for &a in &values {
        for &b in &values {
            assert_eq!(
                order_key(a.to_bits()).cmp(&order_key(b.to_bits())),
                a.total_cmp(&b),
                "{a} vs {b}"
            );
        }
    }
}

#[test]
fn order_key_exact_values() {
    assert_eq!(order_key(0.0f64.to_bits()), 0x8000_0000_0000_0000);
    assert_eq!(order_key((-0.0f64).to_bits()), 0x7FFF_FFFF_FFFF_FFFF);
    assert_eq!(order_key(1.0f64.to_bits()), 0xBFF0_0000_0000_0000);
}

#[test]
fn is_infinite_matches_f64() {
    for &x in &[0.0, -0.0, 1.0, -7.5, f64::MAX, f64::INFINITY, f64::NEG_INFINITY, f64::NAN] {
        assert_eq!(is_infinite(x.to_bits()), x.is_infinite(), "{x}");
    }
}
