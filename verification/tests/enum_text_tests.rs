use ipcalc::net::{IPClass, IPKind};

#[test]
fn ipclass_class_a() {
    assert_eq!("A", IPClass::A.to_string())
}

#[test]
fn ipclass_class_b() {
    assert_eq!("B", IPClass::B.to_string())
}

#[test]
fn ipclass_class_c() {
    assert_eq!("C", IPClass::C.to_string())
}

#[test]
fn ipclass_class_d() {
    assert_eq!("D", IPClass::D.to_string())
}

#[test]
fn ipclass_class_e() {
    assert_eq!("E", IPClass::E.to_string())
}

#[test]
fn ipkind_kind_private() {
    assert_eq!("Private Internet", IPKind::Private.to_string())
}

#[test]
fn ipkind_kind_public() {
    assert_eq!("Public Internet", IPKind::Public.to_string())
}

#[test]
fn ipkind_kind_special() {
    assert_eq!("Special (something)", IPKind::Special("something").to_string())
}
