use csv_index::key::{float_key, INFINITY_BITS, NEG_INFINITY_BITS};

#[test]
fn test_sort() {
    let mut vec = vec![
        float_key(12.0f64.to_bits()),
        float_key((-1000.0f64).to_bits()),
        float_key(std::f64::NEG_INFINITY.to_bits()),
    ];
    vec.sort();
    assert_eq!(
        vec,
        vec![
            float_key(std::f64::NEG_INFINITY.to_bits()),
            float_key((-1000.0f64).to_bits()),
            float_key(12.0f64.to_bits()),
        ]
    );
}

#[test]
fn float_keys_follow_numeric_order() {
    let values = [f64::NEG_INFINITY, -1e300, -2.5, -0.0, 0.0, 1e-300, 3.25, 1e300, f64::INFINITY];
    for w in values.windows(2) {
        assert!(float_key(w[0].to_bits()) < float_key(w[1].to_bits()), "{} {}", w[0], w[1]);
    }
    assert_eq!(NEG_INFINITY_BITS, f64::NEG_INFINITY.to_bits());
    assert_eq!(INFINITY_BITS, f64::INFINITY.to_bits());
    assert_eq!(float_key(0.0f64.to_bits()), 0x8000_0000_0000_0000);
}
