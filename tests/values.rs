use oci_settings::address::{AddressList, Ipv4Address};
use oci_settings::bounded::BoundedInteger;
use oci_settings::error::{ValueKind, Violation};
use oci_settings::values::{ModeledValue, RawValue};

fn percent(s: &str) -> Result<BoundedInteger, oci_settings::error::ValidationError> {
    BoundedInteger::new(s, 0, 100)
}

#[test]
fn percentage_bounds() {
    for bad in ["-1", "101"] {
        let e = percent(bad).unwrap_err();
        assert_eq!(e.violation, Violation::OutOfRange);
        assert_eq!(e.input, bad);
        assert_eq!(e.kind, ValueKind::Integer { min: 0, max: 100 });
    }
    for (good, v) in [("0", 0), ("1", 1), ("99", 99), ("100", 100)] {
        let b = percent(good).unwrap();
        assert_eq!(b.value(), v);
        assert_eq!(b.min(), 0);
        assert_eq!(b.max(), 100);
    }
}

#[test]
fn integer_errors_are_told_apart() {
    assert_eq!(percent("").unwrap_err().violation, Violation::Empty);
    assert_eq!(percent("abc").unwrap_err().violation, Violation::NotAnInteger);
    assert_eq!(percent("-").unwrap_err().violation, Violation::NotAnInteger);
    assert_eq!(percent("1.5").unwrap_err().violation, Violation::NotAnInteger);
    assert_eq!(percent(" 5").unwrap_err().violation, Violation::NotAnInteger);
    assert_eq!(percent("99999999999999999999").unwrap_err().violation, Violation::NotAnInteger);
    assert_eq!(percent("1000").unwrap_err().violation, Violation::OutOfRange);
}

#[test]
fn integer_canonical_form() {
    assert_eq!(percent("+42").unwrap().to_string(), "42");
    assert_eq!(percent("007").unwrap().to_string(), "7");
    assert_eq!(percent("0").unwrap().to_string(), "0");
    let wide = BoundedInteger::new("-9223372036854775808", i64::MIN, i64::MAX).unwrap();
    assert_eq!(wide.value(), i64::MIN);
    assert_eq!(wide.to_string(), "-9223372036854775808");
    let top = BoundedInteger::new("9223372036854775807", i64::MIN, i64::MAX).unwrap();
    assert_eq!(top.to_string(), "9223372036854775807");
    assert_eq!(
        BoundedInteger::new("9223372036854775808", i64::MIN, i64::MAX).unwrap_err().violation,
        Violation::NotAnInteger
    );
}

#[test]
fn integer_round_trip() {
    for s in ["-250", "-1", "0", "13", "+13", "0100"] {
        let b = BoundedInteger::new(s, -1000, 1000).unwrap();
        let again = BoundedInteger::new(&b.to_string(), -1000, 1000).unwrap();
        assert_eq!(again, b);
    }
}

#[test]
fn address_parse_and_print() {
    let a = Ipv4Address::parse("10.0.255.1").unwrap();
    assert_eq!(a, Ipv4Address { a: 10, b: 0, c: 255, d: 1 });
    assert_eq!(a.to_string(), "10.0.255.1");
    assert_eq!(Ipv4Address::parse(&a.to_string()).unwrap(), a);
    for bad in ["", "1.2.3", "1.2.3.4.5", "256.1.1.1", "01.2.3.4", "1..2.3", "1.2.3.4.", "a.b.c.d", " 1.2.3.4"] {
        let e = Ipv4Address::parse(bad).unwrap_err();
        assert_eq!(e.violation, Violation::MalformedAddress);
        assert_eq!(e.kind, ValueKind::Address);
        assert_eq!(e.input, bad);
    }
}

#[test]
fn address_list_shapes() {
    let single = AddressList::from_raw(&RawValue::Scalar("192.168.0.1".to_string())).unwrap();
    let listed = AddressList::from_raw(&RawValue::List(vec!["192.168.0.1".to_string()])).unwrap();
    assert!(matches!(single, AddressList::Single(_)));
    assert!(matches!(listed, AddressList::List(_)));
    let expected = vec![Ipv4Address { a: 192, b: 168, c: 0, d: 1 }];
    assert_eq!(single.addresses(), expected);
    assert_eq!(listed.addresses(), expected);
    let empty = AddressList::from_raw(&RawValue::List(vec![])).unwrap();
    assert!(matches!(empty, AddressList::List(_)));
    assert_eq!(empty.addresses().len(), 0);
}

#[test]
fn address_list_names_bad_element() {
    let raw = RawValue::List(vec!["1.1.1.1".to_string(), "1.1.1".to_string(), "x".to_string()]);
    let e = AddressList::from_raw(&raw).unwrap_err();
    assert_eq!(e.input, "1.1.1");
    assert_eq!(e.kind, ValueKind::AddressList);
    assert_eq!(e.violation, Violation::MalformedAddress);
}

#[test]
fn modeled_value_dispatch() {
    let cap = ModeledValue::from_raw(ValueKind::Capability, &RawValue::Scalar("kill".to_string())).unwrap();
    assert!(matches!(cap, ModeledValue::Capability(oci_settings::oci_defaults::OciDefaultsCapability::Kill)));
    let e = ModeledValue::from_raw(ValueKind::Capability, &RawValue::List(vec!["kill".to_string()])).unwrap_err();
    assert_eq!(e.violation, Violation::UnsupportedShape);
    assert_eq!(e.input, "kill");
    let e = ModeledValue::from_raw(ValueKind::Address, &RawValue::List(vec!["1.1.1.1".to_string(), "2.2.2.2".to_string()])).unwrap_err();
    assert_eq!(e.violation, Violation::UnsupportedShape);
    assert_eq!(e.input, "1.1.1.1,2.2.2.2");
    assert_eq!(e.kind, ValueKind::Address);
    let n = ModeledValue::from_raw(ValueKind::Integer { min: 0, max: 100 }, &RawValue::Scalar("50".to_string())).unwrap();
    assert!(matches!(n, ModeledValue::Integer(b) if b.value() == 50));
    let e = ModeledValue::from_raw(ValueKind::Integer { min: 0, max: 100 }, &RawValue::Scalar("101".to_string())).unwrap_err();
    assert_eq!(e.violation, Violation::OutOfRange);
    let l = ModeledValue::from_raw(ValueKind::AddressList, &RawValue::List(vec![])).unwrap();
    assert!(matches!(l, ModeledValue::Addresses(AddressList::List(_))));
    let r = ModeledValue::from_raw(ValueKind::ResourceLimit, &RawValue::Scalar("max-open-files".to_string())).unwrap();
    assert!(matches!(r, ModeledValue::ResourceLimit(_)));
}

fn scalar(s: &str) -> RawValue {
    RawValue::Scalar(s.to_string())
}

#[test]
fn canonical_forms_rebuild_the_same_value() {
    let cases: Vec<(ValueKind, RawValue, RawValue)> = vec![
        (ValueKind::Capability, scalar("sys-pacct"), scalar("sys-pacct")),
        (ValueKind::ResourceLimit, scalar("max-open-files"), scalar("max-open-files")),
        (ValueKind::Integer { min: -5, max: 100 }, scalar("+007"), scalar("7")),
        (ValueKind::Integer { min: -5, max: 100 }, scalar("-05"), scalar("-5")),
        (ValueKind::Address, scalar("127.0.0.1"), scalar("127.0.0.1")),
        (ValueKind::AddressList, scalar("8.8.8.8"), scalar("8.8.8.8")),
        (
            ValueKind::AddressList,
            RawValue::List(vec!["1.2.3.4".to_string(), "5.6.7.8".to_string()]),
            RawValue::List(vec!["1.2.3.4".to_string(), "5.6.7.8".to_string()]),
        ),
    ];
    for (kind, raw, expected) in cases {
        let v = ModeledValue::from_raw(kind, &raw).unwrap();
        let c = v.canonical();
        match (&c, &expected) {
            (RawValue::Scalar(a), RawValue::Scalar(b)) => assert_eq!(a, b),
            (RawValue::List(a), RawValue::List(b)) => assert_eq!(a, b),
            _ => panic!("canonical form changed shape"),
        }
        let again = ModeledValue::from_raw(kind, &c).unwrap();
        assert_eq!(format!("{:?}", again), format!("{:?}", v));
    }
}
