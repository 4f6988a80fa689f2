use cidr_complement::cidr::{Cidr, ParseError};

#[test]
fn parse_basic() {
    let c = Cidr::new("192.168.1.0/24").unwrap();
    assert_eq!(c.addr, [192, 168, 1, 0]);
    assert_eq!(c.mask, 24);
}

#[test]
fn parse_extremes() {
    let c = Cidr::new("0.0.0.0/0").unwrap();
    assert_eq!(c.addr, [0, 0, 0, 0]);
    assert_eq!(c.mask, 0);
    let c = Cidr::new("255.255.255.255/32").unwrap();
    assert_eq!(c.addr, [255, 255, 255, 255]);
    assert_eq!(c.mask, 32);
}

#[test]
fn parse_keeps_host_bits() {
    // host bits beyond the prefix are preserved, not masked
    let c = Cidr::new("10.1.2.3/8").unwrap();
    assert_eq!(c.addr, [10, 1, 2, 3]);
    assert_eq!(c.mask, 8);
}

#[test]
fn parse_octet_leading_zeros_accepted() {
    let c = Cidr::new("010.001.000.255/24").unwrap();
    assert_eq!(c.addr, [10, 1, 0, 255]);
    assert_eq!(c.mask, 24);
}

#[test]
fn parse_rejects_malformed() {
    assert_eq!(Cidr::new("256.0.0.1/24"), Err(ParseError::InvalidFormat));
    assert_eq!(Cidr::new("1.2.3/24"), Err(ParseError::InvalidFormat));
    assert_eq!(Cidr::new("1.2.3.4/33"), Err(ParseError::InvalidFormat));
    assert_eq!(Cidr::new("1.2.3.4.5/24"), Err(ParseError::InvalidFormat));
    assert_eq!(Cidr::new("abc"), Err(ParseError::InvalidFormat));
}

#[test]
fn parse_rejects_missing_or_bad_prefix() {
    assert_eq!(Cidr::new("1.2.3.4"), Err(ParseError::InvalidFormat));
    assert_eq!(Cidr::new("1.2.3.4/"), Err(ParseError::InvalidFormat));
    assert_eq!(Cidr::new("1.2.3.4/05"), Err(ParseError::InvalidFormat));
    assert_eq!(Cidr::new("1.2.3.4/00"), Err(ParseError::InvalidFormat));
    assert_eq!(Cidr::new("1.2.3.4/321"), Err(ParseError::InvalidFormat));
    assert_eq!(Cidr::new("1.2.3.4/24x"), Err(ParseError::InvalidFormat));
}

#[test]
fn parse_rejects_other_shapes() {
    assert_eq!(Cidr::new(""), Err(ParseError::InvalidFormat));
    assert_eq!(Cidr::new("1234.0.0.1/8"), Err(ParseError::InvalidFormat));
    assert_eq!(Cidr::new(".1.2.3/8"), Err(ParseError::InvalidFormat));
    assert_eq!(Cidr::new("1..2.3/8"), Err(ParseError::InvalidFormat));
    assert_eq!(Cidr::new("1.2.3.4//8"), Err(ParseError::InvalidFormat));
    assert_eq!(Cidr::new("1.2.3.999/8"), Err(ParseError::InvalidFormat));
    assert_eq!(Cidr::new(" 1.2.3.4/8"), Err(ParseError::InvalidFormat));
    assert_eq!(Cidr::new("1.2.3.4/8 "), Err(ParseError::InvalidFormat));
}

#[test]
fn render_basic() {
    let c = Cidr { addr: [192, 168, 1, 0], mask: 24 };
    assert_eq!(c.render(), "192.168.1.0/24");
}

#[test]
fn render_no_padding_full_range() {
    // octet values 0 and 255 and every mask render unpadded
    let c = Cidr { addr: [0, 0, 0, 0], mask: 0 };
    assert_eq!(c.render(), "0.0.0.0/0");
    let c = Cidr { addr: [255, 255, 255, 255], mask: 32 };
    assert_eq!(c.render(), "255.255.255.255/32");
    let c = Cidr { addr: [0, 9, 10, 100], mask: 7 };
    assert_eq!(c.render(), "0.9.10.100/7");
}

#[test]
fn render_never_pads_any_octet() {
    for o in 0..=255u8 {
        let c = Cidr { addr: [o, 0, 0, 0], mask: 9 };
        let text = c.render();
        let first = text.split('.').next().unwrap();
        assert_eq!(first, format!("{}", o));
        assert!(!(first.len() > 1 && first.starts_with('0')));
    }
}

#[test]
fn parse_render_round_trip_all_octets() {
    for o in 0..=255u8 {
        for mask in 0..=32u8 {
            let text = format!("{}.{}.{}.{}/{}", o, 255 - o, o / 2, o, mask);
            let c = Cidr::new(&text).unwrap();
            assert_eq!(c.render(), text);
        }
    }
}
