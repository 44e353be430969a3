use ipcalc::net::{IPClass, IPKind, IPParsingError, IPv4};

#[test]
fn ipv4_string_display() {
    let ip = IPv4::new(192, 168, 5, 42);
    assert_eq!("192.168.5.42", ip.to_string())
}

#[test]
fn ipv4_binary_display() {
    let ip = IPv4::new(192, 168, 5, 42);
    assert_eq!("11000000.10101000.00000101.00101010", ip.to_binary_string())
}

#[test]
fn ipv4_parse_success() {
    let ip = IPv4::parse("192.168.13.37").unwrap();
    assert_eq!(IPv4::new(192, 168, 13, 37), ip)
}

#[test]
fn ipv4_parse_invalid() {
    assert_eq!(
        Err(IPParsingError::InvalidFormat),
        IPv4::parse("512.168.13.37")
    )
}

#[test]
fn ipv4_parse_rejects_leading_zeros() {
    assert_eq!(Err(IPParsingError::InvalidFormat), IPv4::parse("010.0.0.1"));
    assert_eq!(Err(IPParsingError::InvalidFormat), IPv4::parse("10.0.0"));
    assert_eq!(Err(IPParsingError::InvalidFormat), IPv4::parse("10.0.0.1.2"));
    assert_eq!(Err(IPParsingError::InvalidFormat), IPv4::parse(""));
    assert_eq!(Err(IPParsingError::InvalidFormat), IPv4::parse("10.0.0.+1"));
}

#[test]
fn ipv4_octets() {
    let address = IPv4::parse("192.168.5.42").unwrap();
    assert_eq!(0b11000000101010000000010100101010, address.octets())
}

#[test]
fn ipv4_class_a() {
    let address = IPv4::parse("0.0.0.0").unwrap();
    assert_eq!(IPClass::A, address.class());

    let address = IPv4::parse("127.255.255.255").unwrap();
    assert_eq!(IPClass::A, address.class());
}

#[test]
fn ipv4_class_b() {
    let address = IPv4::parse("128.0.0.0").unwrap();
    assert_eq!(IPClass::B, address.class());

    let address = IPv4::parse("191.255.255.255").unwrap();
    assert_eq!(IPClass::B, address.class());
}

#[test]
fn ipv4_class_c() {
    let address = IPv4::parse("192.0.0.0").unwrap();
    assert_eq!(IPClass::C, address.class());

    let address = IPv4::parse("223.255.255.255").unwrap();
    assert_eq!(IPClass::C, address.class());
}

#[test]
fn ipv4_class_d() {
    let address = IPv4::parse("224.0.0.0").unwrap();
    assert_eq!(IPClass::D, address.class());

    let address = IPv4::parse("239.255.255.255").unwrap();
    assert_eq!(IPClass::D, address.class());
}

#[test]
fn ipv4_class_e() {
    let address = IPv4::parse("240.0.0.0").unwrap();
    assert_eq!(IPClass::E, address.class());

    let address = IPv4::parse("255.255.255.255").unwrap();
    assert_eq!(IPClass::E, address.class());
}

#[test]
fn ipv4_kind_private() {
    let address = IPv4::parse("10.0.5.1").unwrap();
    assert_eq!(IPKind::Private, address.kind());
    let address = IPv4::parse("10.255.5.1").unwrap();
    assert_eq!(IPKind::Private, address.kind());

    let address = IPv4::parse("172.16.5.1").unwrap();
    assert_eq!(IPKind::Private, address.kind());
    let address = IPv4::parse("172.31.5.1").unwrap();
    assert_eq!(IPKind::Private, address.kind());

    let address = IPv4::parse("192.168.5.1").unwrap();
    assert_eq!(IPKind::Private, address.kind());
}

#[test]
fn ipv4_kind_public() {
    let address = IPv4::parse("9.0.5.1").unwrap();
    assert_eq!(IPKind::Public, address.kind());
    let address = IPv4::parse("11.0.5.1").unwrap();
    assert_eq!(IPKind::Public, address.kind());

    let address = IPv4::parse("126.255.5.1").unwrap();
    assert_eq!(IPKind::Public, address.kind());
    let address = IPv4::parse("128.0.5.1").unwrap();
    assert_eq!(IPKind::Public, address.kind());

    let address = IPv4::parse("169.253.5.1").unwrap();
    assert_eq!(IPKind::Public, address.kind());
    let address = IPv4::parse("169.255.5.1").unwrap();
    assert_eq!(IPKind::Public, address.kind());

    let address = IPv4::parse("172.15.5.1").unwrap();
    assert_eq!(IPKind::Public, address.kind());
    let address = IPv4::parse("172.32.5.1").unwrap();
    assert_eq!(IPKind::Public, address.kind());

    let address = IPv4::parse("192.167.5.1").unwrap();
    assert_eq!(IPKind::Public, address.kind());
    let address = IPv4::parse("192.169.5.1").unwrap();
    assert_eq!(IPKind::Public, address.kind());
}

#[test]
fn ipv4_kind_special() {
    let address = IPv4::parse("127.0.9.1").unwrap();
    assert_eq!(IPKind::Special("localhost"), address.kind());
    let address = IPv4::parse("127.255.5.1").unwrap();
    assert_eq!(IPKind::Special("localhost"), address.kind());
    let address = IPv4::parse("169.254.5.1").unwrap();
    assert_eq!(IPKind::Special("link-local"), address.kind());
    let address = IPv4::parse("192.0.2.1").unwrap();
    assert_eq!(IPKind::Special("documentation"), address.kind());
    let address = IPv4::parse("192.0.2.254").unwrap();
    assert_eq!(IPKind::Special("documentation"), address.kind());
    let address = IPv4::parse("198.51.100.1").unwrap();
    assert_eq!(IPKind::Special("documentation"), address.kind());
    let address = IPv4::parse("198.51.100.254").unwrap();
    assert_eq!(IPKind::Special("documentation"), address.kind());
    let address = IPv4::parse("203.0.113.1").unwrap();
    assert_eq!(IPKind::Special("documentation"), address.kind());
    let address = IPv4::parse("203.0.113.254").unwrap();
    assert_eq!(IPKind::Special("documentation"), address.kind());
}
