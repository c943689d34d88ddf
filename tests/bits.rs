use csv_index::bits::{u64_to_u8s, u8s_to_u64};

#[test]
fn test_u64_to_u8s() {
    let n = u64::max_value() - 254;
    let u8s = u64_to_u8s(n);
    assert_eq!(u8s, [255, 255, 255, 255, 255, 255, 255, 1]);

    // and back
    assert_eq!(u8s_to_u64(u8s), n);
}

#[test]
fn encodes_most_significant_byte_first() {
    assert_eq!(u64_to_u8s(0x0102_0304_0506_0708), [1, 2, 3, 4, 5, 6, 7, 8]);
    assert_eq!(u8s_to_u64([0, 0, 0, 0, 0, 0, 1, 0]), 256);
}

#[test]
fn round_trips_edge_values() {
    for x in [0u64, 1, 255, 256, 1 << 32, u64::MAX - 1, u64::MAX] {
        assert_eq!(u8s_to_u64(u64_to_u8s(x)), x);
    }
    assert_eq!(u64_to_u8s(0), [0; 8]);
    assert_eq!(u64_to_u8s(u64::MAX), [255; 8]);
}
