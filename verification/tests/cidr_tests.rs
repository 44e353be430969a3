use ipcalc::net::{CIDRComparison, CIDRParsingError, IPClass, IPKind, IPv4, Mask, CIDR};

#[test]
fn cidr_parse_mask_negative() {
    assert_eq!(
        Err(CIDRParsingError::InvalidMaskLength),
        CIDR::parse("10.0.0.0/-5"),
    )
}

#[test]
fn cidr_parse_mask_too_small() {
    assert_eq!(
        Err(CIDRParsingError::InvalidMaskLength),
        CIDR::parse("10.0.0.0/38"),
    )
}

#[test]
fn cidr_parse_ip_missing_bytes() {
    assert_eq!(
        Err(CIDRParsingError::InvalidHostFormat),
        CIDR::parse("10.0/20"),
    )
}

#[test]
fn cidr_parse_ip_contains_several_slashes() {
    assert_eq!(
        Err(CIDRParsingError::InvalidHostFormat),
        CIDR::parse("10.0.10.0/24/12"),
    )
}

#[test]
fn lib_parse_mask_negative() {
    assert_eq!(
        Err(CIDRParsingError::InvalidMaskLength),
        CIDR::parse("10.0.0.0/-5")
    )
}

#[test]
fn lib_parse_mask_too_small() {
    assert_eq!(
        Err(CIDRParsingError::InvalidMaskLength),
        CIDR::parse("10.0.0.0/38")
    )
}

#[test]
fn lib_parse_ip_missing_bytes() {
    assert_eq!(
        Err(CIDRParsingError::InvalidHostFormat),
        CIDR::parse("10.0/20")
    )
}

#[test]
fn lib_parse_ip_contains_several_slashes() {
    assert_eq!(
        Err(CIDRParsingError::InvalidHostFormat),
        CIDR::parse("10.0.10.0/24/12")
    )
}

#[test]
fn cidr_parse_defaults_to_host_mask() {
    let cidr = CIDR::parse("1.2.3.4").unwrap();
    assert_eq!(CIDR::new(IPv4::new(1, 2, 3, 4), Mask::new(32).unwrap()), cidr);
    assert_eq!("1.2.3.4/32", cidr.to_string());
}

#[test]
fn cidr_to_string_reparses() {
    let cidr = CIDR::parse("10.13.5.78/26").unwrap();
    assert_eq!(Ok(cidr), CIDR::parse(&cidr.to_string()));

    let host = CIDR::parse("1.2.3.4").unwrap();
    assert_eq!(Ok(host), CIDR::parse(&host.to_string()));
}

#[test]
fn network() {
    let address = CIDR::parse("10.0.10.15/24").unwrap();
    let expected = CIDR::parse("10.0.10.0/24").unwrap();

    assert_eq!(expected, address.network_address())
}

#[test]
fn cidr_network_address() {
    let address = CIDR::new(IPv4::new(10, 0, 10, 15), Mask::new(24).unwrap());
    let expected = CIDR::new(IPv4::new(10, 0, 10, 0), Mask::new(24).unwrap());

    assert_eq!(expected, address.network_address())
}

#[test]
fn cidr_first_address() {
    let address = CIDR::new(IPv4::new(10, 0, 10, 15), Mask::new(24).unwrap());
    let first_address = IPv4::new(10, 0, 10, 1);

    assert_eq!(Some(first_address), address.first_address())
}

#[test]
fn cidr_last_address() {
    let address = CIDR::new(IPv4::new(10, 0, 10, 15), Mask::new(24).unwrap());
    let last_address = IPv4::new(10, 0, 10, 254);

    assert_eq!(Some(last_address), address.last_address())
}

#[test]
fn cidr_broadcast_address() {
    let address = CIDR::new(IPv4::new(10, 0, 10, 15), Mask::new(24).unwrap());
    let broadcast_address = IPv4::new(10, 0, 10, 255);

    assert_eq!(Some(broadcast_address), address.broadcast_address())
}

#[test]
fn cidr_host_range_absent_for_31_and_32() {
    let address = CIDR::new(IPv4::new(10, 0, 10, 15), Mask::new(31).unwrap());
    assert_eq!(None, address.first_address());
    assert_eq!(None, address.last_address());
    assert_eq!(None, address.broadcast_address());
}

#[test]
fn cidr_hosts() {
    let address = CIDR::new(IPv4::new(10, 0, 10, 15), Mask::new(24).unwrap());

    assert_eq!(254, address.hosts())
}

#[test]
fn cidr_class() {
    let address = CIDR::new(IPv4::new(10, 0, 10, 15), Mask::new(24).unwrap());

    assert_eq!(IPClass::A, address.class())
}

#[test]
fn kind() {
    let address = CIDR::new(IPv4::new(10, 0, 10, 15), Mask::new(24).unwrap());

    assert_eq!(IPKind::Private, address.kind())
}

#[test]
fn split() {
    let address = CIDR::new(IPv4::new(10, 0, 10, 15), Mask::new(24).unwrap());

    let new_mask = Mask::new(20).unwrap();
    let expected = vec![CIDR::new(IPv4::new(10, 0, 10, 0), Mask::new(20).unwrap())];
    assert_eq!(expected, address.split(new_mask));

    let new_mask = Mask::new(25).unwrap();
    let expected = vec![
        CIDR::new(IPv4::new(10, 0, 10, 0), Mask::new(25).unwrap()),
        CIDR::new(IPv4::new(10, 0, 10, 128), Mask::new(25).unwrap()),
    ];
    assert_eq!(expected, address.split(new_mask));

    let new_mask = Mask::new(26).unwrap();
    let expected = vec![
        CIDR::new(IPv4::new(10, 0, 10, 0), Mask::new(26).unwrap()),
        CIDR::new(IPv4::new(10, 0, 10, 64), Mask::new(26).unwrap()),
        CIDR::new(IPv4::new(10, 0, 10, 128), Mask::new(26).unwrap()),
        CIDR::new(IPv4::new(10, 0, 10, 192), Mask::new(26).unwrap()),
    ];
    assert_eq!(expected, address.split(new_mask));
}

#[test]
fn split_quarters() {
    let address = CIDR::parse("10.13.5.0/24").unwrap();
    let parts = address.split(Mask::new(26).unwrap());
    assert_eq!(4, parts.len());
    assert_eq!("10.13.5.0/26", parts[0].to_string());
    assert_eq!("10.13.5.64/26", parts[1].to_string());
    assert_eq!("10.13.5.128/26", parts[2].to_string());
    assert_eq!("10.13.5.192/26", parts[3].to_string());
}

#[test]
fn split_to_host_routes() {
    let address = CIDR::parse("10.0.0.0/30").unwrap();
    let parts = address.split(Mask::new(32).unwrap());
    assert_eq!(4, parts.len());
    assert_eq!("10.0.0.0/32", parts[0].to_string());
    assert_eq!("10.0.0.1/32", parts[1].to_string());
    assert_eq!("10.0.0.2/32", parts[2].to_string());
    assert_eq!("10.0.0.3/32", parts[3].to_string());
}

#[test]
fn split_covers_whole_block() {
    let address = CIDR::parse("192.168.4.0/22").unwrap();
    let parts = address.split(Mask::new(24).unwrap());
    assert_eq!(4, parts.len());
    for (i, part) in parts.iter().enumerate() {
        assert_eq!(
            Some(IPv4::new(192, 168, 4 + i as u8, 255)),
            part.broadcast_address()
        );
        assert_eq!(
            CIDR::parse("192.168.4.0/22").unwrap(),
            part.aggregate(Mask::new(22).unwrap()).network_address()
        );
    }
}

#[test]
fn is_network_address() {
    let host_address = CIDR::new(IPv4::new(10, 0, 10, 15), Mask::new(24).unwrap());
    assert_eq!(false, host_address.is_network_address());

    let network_address = CIDR::new(IPv4::new(10, 0, 10, 0), Mask::new(24).unwrap());
    assert_eq!(true, network_address.is_network_address());
}

#[test]
fn network_address_is_network_address() {
    let host_address = CIDR::new(IPv4::new(172, 16, 200, 91), Mask::new(19).unwrap());
    assert_eq!(true, host_address.network_address().is_network_address());
}

#[test]
fn compare() {
    let base_address = CIDR::new(IPv4::new(10, 0, 10, 15), Mask::new(24).unwrap());

    let compared = CIDR::new(IPv4::new(10, 0, 10, 5), Mask::new(24).unwrap());
    assert_eq!(CIDRComparison::Equals, base_address.compare(&compared));

    let compared = CIDR::new(IPv4::new(10, 0, 10, 15), Mask::new(26).unwrap());
    assert_eq!(CIDRComparison::Superset, base_address.compare(&compared));

    let compared = CIDR::new(IPv4::new(10, 0, 10, 5), Mask::new(20).unwrap());
    assert_eq!(CIDRComparison::Subset, base_address.compare(&compared));

    let compared = CIDR::new(IPv4::new(10, 2, 10, 5), Mask::new(24).unwrap());
    assert_eq!(CIDRComparison::Different, base_address.compare(&compared));
}

#[test]
fn compare_host_prefixes() {
    let a = CIDR::parse("10.0.10.15/24").unwrap();
    let b = CIDR::parse("10.0.10.99/26").unwrap();
    assert_eq!(CIDRComparison::Superset, a.compare(&b));
    assert_eq!(CIDRComparison::Subset, b.compare(&a));
    assert_eq!(CIDRComparison::Equals, a.compare(&a));
}

#[test]
fn aggregate() {
    let base_address = CIDR::new(IPv4::new(10, 0, 10, 248), Mask::new(32).unwrap());

    assert_eq!(
        CIDR::new(IPv4::new(10, 0, 10, 248), Mask::new(31).unwrap()),
        base_address.aggregate(Mask::new(31).unwrap())
    );

    assert_eq!(
        CIDR::new(IPv4::new(10, 0, 10, 240), Mask::new(28).unwrap()),
        base_address.aggregate(Mask::new(28).unwrap())
    );

    assert_eq!(
        CIDR::new(IPv4::new(10, 0, 10, 0), Mask::new(24).unwrap()),
        base_address.aggregate(Mask::new(24).unwrap())
    );

    let base_address = CIDR::new(IPv4::new(10, 0, 10, 248), Mask::new(24).unwrap());
    assert_eq!(
        CIDR::new(IPv4::new(10, 0, 10, 248), Mask::new(28).unwrap()),
        base_address.aggregate(Mask::new(28).unwrap())
    );
}
