use caa::{emit_tag, read_iodef, read_issuer, read_tag, CaaError, KeyValue, Name, Url, CAA};

fn name(text: &str) -> Name {
    Name::from_ascii(text).unwrap()
}

fn test_encode_decode(rdata: CAA) {
    let mut bytes = Vec::new();
    rdata.emit(&mut bytes).expect("failed to emit caa");
    println!("bytes: {bytes:?}");
    let read_rdata =
        CAA::read_data(&bytes, bytes.len() as u16).expect("failed to read back");
    assert_eq!(rdata, read_rdata);
}

fn test_encode(rdata: CAA, encoded: &[u8]) {
    let mut bytes = Vec::new();
    rdata.emit(&mut bytes).expect("failed to emit caa");
    assert_eq!(bytes as Vec<u8>, encoded.to_vec());
}

#[test]
fn test_read_tag() {
    let ok_under15 = b"abcxyzABCXYZ019";
    let read = read_tag(ok_under15, ok_under15.len() as u8).expect("failed to read tag");
    assert_eq!(std::str::from_utf8(ok_under15).unwrap(), read);
}

#[test]
fn test_bad_tag() {
    let bad_under15 = b"-";
    assert!(read_tag(bad_under15, bad_under15.len() as u8).is_err());
}

#[test]
fn test_too_short_tag() {
    let too_short = b"";
    assert!(read_tag(too_short, too_short.len() as u8).is_err());
}

#[test]
fn test_too_long_tag() {
    let too_long = b"0123456789abcdef";
    assert!(read_tag(too_long, too_long.len() as u8).is_err());
}

#[test]
fn test_read_issuer() {
    assert_eq!(
        read_issuer(b"ca.example.net; account=230123").unwrap(),
        (Some(name("ca.example.net")), vec![KeyValue::new("account", "230123")])
    );
    assert_eq!(read_issuer(b"ca.example.net").unwrap(), (Some(name("ca.example.net")), vec![]));
    assert_eq!(
        read_issuer(b"ca.example.net; policy=ev").unwrap(),
        (Some(name("ca.example.net")), vec![KeyValue::new("policy", "ev")])
    );
    assert_eq!(
        read_issuer(b"ca.example.net; account=230123; policy=ev").unwrap(),
        (
            Some(name("ca.example.net")),
            vec![KeyValue::new("account", "230123"), KeyValue::new("policy", "ev")],
        )
    );
    assert_eq!(
        read_issuer(
            b"example.net; account-uri=https://example.net/account/1234; validation-methods=dns-01"
        )
        .unwrap(),
        (
            Some(name("example.net")),
            vec![
                KeyValue::new("account-uri", "https://example.net/account/1234"),
                KeyValue::new("validation-methods", "dns-01"),
            ],
        )
    );
    assert_eq!(read_issuer(b";").unwrap(), (None, vec![]));
    read_issuer(b"example.com; param=\xff").unwrap_err();
}

#[test]
fn test_read_iodef() {
    assert_eq!(
        read_iodef(b"mailto:security@example.com").unwrap(),
        Url::parse("mailto:security@example.com").unwrap()
    );
    assert_eq!(
        read_iodef(b"https://iodef.example.com/").unwrap(),
        Url::parse("https://iodef.example.com/").unwrap()
    );
}

#[test]
fn test_encode_decode_issue() {
    test_encode_decode(CAA::new_issue(true, None, vec![]));
    test_encode_decode(CAA::new_issue(true, Some(name("example.com")), vec![]));
    test_encode_decode(CAA::new_issue(
        true,
        Some(name("example.com")),
        vec![KeyValue::new("key", "value")],
    ));
    test_encode_decode(CAA::new_issue(true, None, vec![KeyValue::new("key", "value")]));
    test_encode_decode(CAA::new_issue(true, Some(name("example.com.")), vec![]));
    test_encode_decode(CAA {
        issuer_critical: false,
        reserved_flags: 0,
        raw_tag: "issue".to_string(),
        raw_value: b"%%%%%".to_vec(),
    });
}

#[test]
fn test_encode_decode_issuewild() {
    test_encode_decode(CAA::new_issuewild(false, None, vec![]));
}

#[test]
fn test_encode_decode_iodef() {
    test_encode_decode(CAA::new_iodef(true, Url::parse("https://www.example.com").unwrap()));
    test_encode_decode(CAA::new_iodef(false, Url::parse("mailto:root@example.com").unwrap()));
    test_encode_decode(CAA {
        issuer_critical: false,
        reserved_flags: 0,
        raw_tag: "iodef".to_string(),
        raw_value: vec![0xff],
    });
}

#[test]
fn test_encode_decode_unknown() {
    test_encode_decode(CAA {
        issuer_critical: true,
        reserved_flags: 0,
        raw_tag: "tbs".to_string(),
        raw_value: b"Unknown".to_vec(),
    });
}

#[test]
fn test_encode_non_fqdn() {
    let name_bytes: &[u8] = b"issueexample.com";
    let header: &[u8] = &[128, 5];
    let encoded: Vec<u8> = header.iter().chain(name_bytes.iter()).cloned().collect();
    test_encode(CAA::new_issue(true, Some(name("example.com")), vec![]), &encoded);
}

#[test]
fn test_encode_fqdn() {
    let name_bytes: &[u8] = b"issueexample.com.";
    let header: [u8; 2] = [128, 5];
    let encoded: Vec<u8> = header.iter().chain(name_bytes.iter()).cloned().collect();
    test_encode(CAA::new_issue(true, Some(name("example.com.")), vec![]), &encoded);
}

#[test]
fn test_to_string() {
    let deny = CAA::new_issue(false, None, vec![]);
    assert_eq!(deny.to_string(), "0 issue \";\"");

    let empty_options = CAA::new_issue(false, Some(name("example.com")), vec![]);
    assert_eq!(empty_options.to_string(), "0 issue \"example.com\"");

    let one_option =
        CAA::new_issue(false, Some(name("example.com")), vec![KeyValue::new("one", "1")]);
    assert_eq!(one_option.to_string(), "0 issue \"example.com; one=1\"");

    let two_options = CAA::new_issue(
        false,
        Some(name("example.com")),
        vec![KeyValue::new("one", "1"), KeyValue::new("two", "2")],
    );
    assert_eq!(two_options.to_string(), "0 issue \"example.com; one=1; two=2\"");

    let flag_set = CAA::new_issue(
        true,
        Some(name("example.com")),
        vec![KeyValue::new("one", "1"), KeyValue::new("two", "2")],
    );
    assert_eq!(flag_set.to_string(), "128 issue \"example.com; one=1; two=2\"");

    let empty_domain =
        CAA::new_issue(false, None, vec![KeyValue::new("one", "1"), KeyValue::new("two", "2")]);
    assert_eq!(empty_domain.to_string(), "0 issue \"; one=1; two=2\"");

    assert_eq!(
        CAA::new_issue(
            false,
            Some(name("ca.example.net")),
            vec![KeyValue::new("account", "230123")]
        )
        .to_string(),
        "0 issue \"ca.example.net; account=230123\""
    );
    assert_eq!(
        CAA::new_issue(false, Some(name("ca.example.net")), vec![KeyValue::new("policy", "ev")])
            .to_string(),
        "0 issue \"ca.example.net; policy=ev\""
    );
    assert_eq!(
        CAA::new_iodef(false, Url::parse("mailto:security@example.com").unwrap()).to_string(),
        "0 iodef \"mailto:security@example.com\""
    );
    assert_eq!(
        CAA::new_iodef(false, Url::parse("https://iodef.example.com/").unwrap()).to_string(),
        "0 iodef \"https://iodef.example.com/\""
    );
    let unknown = CAA {
        issuer_critical: true,
        reserved_flags: 0,
        raw_tag: "tbs".to_string(),
        raw_value: b"Unknown".to_vec(),
    };
    assert_eq!(unknown.to_string(), "128 tbs \"Unknown\"");
}

#[test]
fn test_unicode_kv() {
    const MESSAGE: &[u8] = &[
        32, 5, 105, 115, 115, 117, 101, 103, 103, 103, 102, 71, 46, 110, 110, 115, 115, 117, 48,
        110, 45, 59, 32, 32, 255, 61, 255, 255, 255, 255, 255, 255, 255, 255, 255, 255, 255, 255,
        255, 255, 255, 255, 255, 255, 255, 255, 255,
    ];

    let caa = CAA::read_data(MESSAGE, MESSAGE.len() as u16).unwrap();
    assert!(!caa.issuer_critical());
    assert_eq!(caa.tag(), "issue");
    match (caa.value_as_issue(), caa.value_as_iodef()) {
        (Err(_), Err(_)) => {}
        _ => panic!("wrong value type"),
    }
    assert_eq!(caa.raw_value, &MESSAGE[7..]);
}

#[test]
fn test_name_non_ascii_character_escaped_dots_roundtrip() {
    const MESSAGE: &[u8] = b"\x00\x05issue\xe5\x85\x9edomain\\.\\.name";
    let caa = CAA::read_data(MESSAGE, u16::try_from(MESSAGE.len()).unwrap()).unwrap();

    let mut encoded = Vec::new();
    caa.emit(&mut encoded).unwrap();

    let caa_round_trip = CAA::read_data(&encoded, u16::try_from(encoded.len()).unwrap()).unwrap();

    assert_eq!(caa, caa_round_trip);
}

#[test]
fn test_reserved_flags_round_trip() {
    let mut original = *b"\x00\x05issueexample.com";
    for flags in 0..=u8::MAX {
        original[0] = flags;
        let caa = CAA::read_data(&original, u16::try_from(original.len()).unwrap()).unwrap();

        let mut encoded = Vec::new();
        caa.emit(&mut encoded).unwrap();
        assert_eq!(original.as_slice(), &encoded);
    }
}
