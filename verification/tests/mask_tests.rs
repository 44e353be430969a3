use ipcalc::net::{IPv4, Mask, MaskParsingError};

#[test]
fn debug_display() {
    assert_eq!("/24", Mask::new(24).unwrap().to_prefix_string())
}

#[test]
fn mask_parse_mask_negative() {
    assert_eq!(Err(MaskParsingError::InvalidFormat), Mask::parse("-5"))
}

#[test]
fn mask_parse_mask_not_number() {
    assert_eq!(Err(MaskParsingError::InvalidFormat), Mask::parse("plop"))
}

#[test]
fn mask_parse_mask_not_in_range() {
    assert_eq!(Err(MaskParsingError::InvalidRange), Mask::parse("198"))
}

#[test]
fn mask_parse_mask_success() {
    let parsed = Mask::parse("24").unwrap();
    assert_eq!(Mask::new(24).unwrap(), parsed);
    assert_eq!(0xFFFFFF00u32, parsed.value())
}

#[test]
fn mask_parse_38_not_in_range() {
    assert_eq!(Err(MaskParsingError::InvalidRange), Mask::parse("38"))
}

#[test]
fn mask_parse_large_values_not_in_range() {
    assert_eq!(Err(MaskParsingError::InvalidRange), Mask::parse("300"));
    assert_eq!(Err(MaskParsingError::InvalidRange), Mask::parse("4294967296"));
    assert_eq!(
        Err(MaskParsingError::InvalidRange),
        Mask::parse("99999999999999999999")
    );
}

#[test]
fn mask_parse_plus_sign() {
    assert_eq!(Mask::new(24).unwrap(), Mask::parse("+24").unwrap());
    assert_eq!(Err(MaskParsingError::InvalidRange), Mask::parse("+33"));
    assert_eq!(Err(MaskParsingError::InvalidFormat), Mask::parse("+"));
    assert_eq!(Err(MaskParsingError::InvalidFormat), Mask::parse("++5"));
}

#[test]
fn mask_string_display() {
    assert_eq!("255.255.255.0", Mask::new(24).unwrap().to_string());
    assert_eq!("255.255.0.0", Mask::new(16).unwrap().to_string());
    assert_eq!("255.0.0.0", Mask::new(8).unwrap().to_string());
    assert_eq!("255.255.240.0", Mask::new(20).unwrap().to_string());
}

#[test]
fn mask_binary_display() {
    assert_eq!(
        "11111111.11111111.11111111.00000000",
        Mask::new(24).unwrap().to_binary_string()
    );

    assert_eq!(
        "11111111.11111111.00000000.00000000",
        Mask::new(16).unwrap().to_binary_string()
    );

    assert_eq!(
        "11111111.11111111.11110000.00000000",
        Mask::new(20).unwrap().to_binary_string()
    );
}

#[test]
fn prefix_length() {
    assert_eq!(24, Mask::new(24).unwrap().prefix_length())
}

#[test]
fn prefix_length_round_trip_all() {
    for p in 0..=32u8 {
        assert_eq!(p, Mask::new(p).unwrap().prefix_length());
    }
}

#[test]
fn get_mask_len() {
    assert_eq!(24, Mask::new(24).unwrap().len())
}

#[test]
fn mask_get_wildcard() {
    assert_eq!(0x00000000u32, Mask::new(32).unwrap().wildcard().value());
    assert_eq!(0x000000FFu32, Mask::new(24).unwrap().wildcard().value());
    assert_eq!(0x0000FFFFu32, Mask::new(16).unwrap().wildcard().value());
    assert_eq!(0x00FFFFFFu32, Mask::new(8).unwrap().wildcard().value());
    assert_eq!(0xFFFFFFFFu32, Mask::new(0).unwrap().wildcard().value());
}

#[test]
fn wildcard_involution_all() {
    for p in 0..=32u8 {
        let mask = Mask::new(p).unwrap();
        assert_eq!(mask, mask.wildcard().wildcard());
    }
}

#[test]
fn mask_network_address() {
    let host_address = IPv4::new(10, 42, 180, 53);

    let mask = Mask::new(32).unwrap();
    assert_eq!(
        IPv4::new(10, 42, 180, 53),
        mask.network_address(&host_address)
    );

    let mask = Mask::new(24).unwrap();
    assert_eq!(
        IPv4::new(10, 42, 180, 0),
        mask.network_address(&host_address)
    );

    let mask = Mask::new(20).unwrap();
    assert_eq!(
        IPv4::new(10, 42, 176, 0),
        mask.network_address(&host_address)
    );

    let mask = Mask::new(16).unwrap();
    assert_eq!(IPv4::new(10, 42, 0, 0), mask.network_address(&host_address));

    let mask = Mask::new(0).unwrap();
    assert_eq!(IPv4::new(0, 0, 0, 0), mask.network_address(&host_address));
}

#[test]
fn mask_first_address() {
    let host_address = IPv4::new(10, 42, 180, 53);

    let mask = Mask::new(32).unwrap();
    assert_eq!(None, mask.first_address(&host_address));

    let mask = Mask::new(24).unwrap();
    assert_eq!(
        Some(IPv4::new(10, 42, 180, 1)),
        mask.first_address(&host_address)
    );

    let mask = Mask::new(20).unwrap();
    assert_eq!(
        Some(IPv4::new(10, 42, 176, 1)),
        mask.first_address(&host_address)
    );
}

#[test]
fn mask_last_address() {
    let host_address = IPv4::new(10, 42, 180, 53);

    let mask = Mask::new(32).unwrap();
    assert_eq!(None, mask.last_address(&host_address));

    let mask = Mask::new(24).unwrap();
    assert_eq!(
        Some(IPv4::new(10, 42, 180, 254)),
        mask.last_address(&host_address)
    );

    let mask = Mask::new(20).unwrap();
    assert_eq!(
        Some(IPv4::new(10, 42, 191, 254)),
        mask.last_address(&host_address)
    );
}

#[test]
fn mask_broadcast_address() {
    let host_address = IPv4::new(10, 42, 180, 53);

    let mask = Mask::new(32).unwrap();
    assert_eq!(None, mask.broadcast_address(&host_address));

    let mask = Mask::new(24).unwrap();
    assert_eq!(
        Some(IPv4::new(10, 42, 180, 255)),
        mask.broadcast_address(&host_address)
    );

    let mask = Mask::new(20).unwrap();
    assert_eq!(
        Some(IPv4::new(10, 42, 191, 255)),
        mask.broadcast_address(&host_address)
    );
}

#[test]
fn mask_hosts() {
    let mask = Mask::new(32).unwrap();
    assert_eq!(1, mask.hosts());

    let mask = Mask::new(24).unwrap();
    assert_eq!(254, mask.hosts());

    let mask = Mask::new(20).unwrap();
    assert_eq!(4094, mask.hosts());

    let mask = Mask::new(16).unwrap();
    assert_eq!(65534, mask.hosts());

    let mask = Mask::new(8).unwrap();
    assert_eq!(16777214, mask.hosts());
}

#[test]
fn mask_hosts_edges() {
    assert_eq!(0, Mask::new(31).unwrap().hosts());
    assert_eq!(4294967294u32, Mask::new(0).unwrap().hosts());
}

#[test]
fn mask_new_out_of_range() {
    assert_eq!(Err(MaskParsingError::InvalidRange), Mask::new(33));
}

#[test]
fn mask_zero_length() {
    let mask = Mask::new(0).unwrap();
    assert_eq!("0.0.0.0", mask.to_string());
    assert_eq!(0, mask.prefix_length());
}
