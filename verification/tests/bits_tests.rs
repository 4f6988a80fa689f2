use cidr_complement::bits::{bin_to_u8, u8_to_bin};

#[test]
fn u8_to_bin_writes_eight_digits() {
    assert_eq!(u8_to_bin(0), "00000000");
    assert_eq!(u8_to_bin(255), "11111111");
    assert_eq!(u8_to_bin(192), "11000000");
    assert_eq!(u8_to_bin(1), "00000001");
    assert_eq!(u8_to_bin(0b10101010), "10101010");
}

#[test]
fn bin_to_u8_reads_values() {
    assert_eq!(bin_to_u8("00000000"), 0);
    assert_eq!(bin_to_u8("11111111"), 255);
    assert_eq!(bin_to_u8("11000000"), 192);
    assert_eq!(bin_to_u8("1"), 1);
    assert_eq!(bin_to_u8("101"), 5);
}

#[test]
fn binary_round_trip_all_octets() {
    for n in 0..=255u8 {
        let text = u8_to_bin(n);
        assert_eq!(text.len(), 8);
        assert_eq!(bin_to_u8(&text), n);
    }
}
