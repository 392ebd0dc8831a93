use caa::{
    emit_tag, encode_issuer_value, read_iodef, read_issuer, read_tag, CaaError, KeyValue, Name,
    Url, CAA,
};

fn name(text: &str) -> Name {
    Name::from_ascii(text).unwrap()
}

fn record(issuer_critical: bool, reserved_flags: u8, tag: &str, value: &[u8]) -> CAA {
    CAA { issuer_critical, reserved_flags, raw_tag: tag.to_string(), raw_value: value.to_vec() }
}

#[test]
fn issue_value_reads_back_as_written() {
    let options = vec![KeyValue::new("account", "230123"), KeyValue::new("ab-c", "x=y:/")];
    let rec = CAA::new_issue(false, Some(name("ca.example.net")), options);
    assert_eq!(
        rec.value_as_issue().unwrap(),
        (
            Some(name("ca.example.net")),
            vec![KeyValue::new("account", "230123"), KeyValue::new("ab-c", "x=y:/")]
        )
    );
    let wild = CAA::new_issuewild(true, None, vec![KeyValue::new("k", "")]);
    assert_eq!(wild.value_as_issue().unwrap(), (None, vec![KeyValue::new("k", "")]));
    let deny = CAA::new_issue(false, None, vec![]);
    assert_eq!(deny.raw_value(), b";");
    assert_eq!(deny.value_as_issue().unwrap(), (None, vec![]));
}

#[test]
fn set_issuer_value_then_read() {
    let mut rec = record(false, 0, "IssueWild", b"");
    let kvs = vec![KeyValue::new("policy", "ev")];
    rec.set_issuer_value(Some(&name("example.org.")), &kvs).unwrap();
    assert_eq!(rec.raw_value(), b"example.org.; policy=ev");
    assert_eq!(rec.value_as_issue().unwrap(), (Some(name("example.org.")), kvs));
}

#[test]
fn set_issuer_value_refused_for_other_tags() {
    let mut rec = record(true, 3, "iodef", b"mailto:a@b.c");
    let before = rec.clone();
    assert_eq!(rec.set_issuer_value(None, &[]), Err(CaaError::NotIssueTag));
    assert_eq!(rec, before);
}

#[test]
fn iodef_value_reads_back_as_written() {
    let url = Url::parse("https://iodef.example.com/report").unwrap();
    let rec = CAA::new_iodef(false, url);
    assert_eq!(rec.raw_value(), b"https://iodef.example.com/report");
    assert_eq!(rec.value_as_iodef().unwrap().as_str(), "https://iodef.example.com/report");

    let mut other = record(false, 0, "IODEF", b"");
    other.set_iodef_value(&Url::parse("mailto:x@example.com").unwrap()).unwrap();
    assert_eq!(other.raw_value(), b"mailto:x@example.com");
}

#[test]
fn url_is_normalized_by_parse() {
    // The serialization comes from the url crate, not from the input text.
    assert_eq!(Url::parse("HTTPS://Example.COM").unwrap().as_str(), "https://example.com/");
}

#[test]
fn set_iodef_value_refused_for_other_tags() {
    let mut rec = record(false, 0, "issue", b";");
    let url = Url::parse("https://a.example/").unwrap();
    assert_eq!(rec.set_iodef_value(&url), Err(CaaError::NotIodefTag));
    assert_eq!(rec.raw_value(), b";");
}

#[test]
fn value_readers_check_the_tag() {
    let issue = CAA::new_issue(false, None, vec![]);
    assert_eq!(issue.value_as_iodef(), Err(CaaError::NotIodefTag));
    let iodef = CAA::new_iodef(false, Url::parse("https://a.example/").unwrap());
    assert_eq!(iodef.value_as_issue(), Err(CaaError::NotIssueTag));
    let upper = record(false, 0, "ISSUE", b"example.com");
    assert_eq!(upper.value_as_issue().unwrap(), (Some(name("example.com")), vec![]));
}

#[test]
fn flags_combine_critical_bit_and_reserved_bits() {
    assert_eq!(record(true, 0x7f, "tbs", b"").flags(), 255);
    assert_eq!(record(false, 0x85, "tbs", b"").flags(), 5);
    assert_eq!(record(true, 0, "tbs", b"").flags(), 128);
    let mut rec = record(false, 1, "tbs", b"");
    rec.set_issuer_critical(true);
    assert!(rec.issuer_critical());
    assert_eq!(rec.flags(), 129);
}

#[test]
fn set_tag_replaces_tag() {
    let mut rec = record(false, 0, "issue", b";");
    rec.set_tag("iodef".to_string());
    assert_eq!(rec.tag(), "iodef");
    assert_eq!(rec.raw_value(), b";");
}

#[test]
fn emit_writes_exact_bytes() {
    let mut out = vec![9u8];
    record(false, 2, "tbs", b"xy").emit(&mut out).unwrap();
    assert_eq!(out, vec![9, 2, 3, b't', b'b', b's', b'x', b'y']);
}

#[test]
fn emit_refuses_a_tag_over_255_bytes() {
    let tag = "a".repeat(256);
    let mut out = Vec::new();
    assert_eq!(record(true, 0, &tag, b"v").emit(&mut out), Err(CaaError::TagTooLong));
    assert_eq!(out, vec![128]);
}

#[test]
fn emit_tag_writes_front_of_buffer() {
    let mut buf = [7u8; 5];
    assert_eq!(emit_tag(&mut buf, "abc"), Ok(3));
    assert_eq!(buf, [b'a', b'b', b'c', 7, 7]);
    let mut small = [0u8; 2];
    assert_eq!(emit_tag(&mut small, "abc"), Err(CaaError::InsufficientCapacity));
    assert_eq!(small, [0, 0]);
    let long = "b".repeat(256);
    let mut big = [0u8; 300];
    assert_eq!(emit_tag(&mut big, &long), Err(CaaError::TagTooLong));
}

#[test]
fn read_data_errors() {
    assert_eq!(CAA::read_data(&[0], 1), Err(CaaError::UnexpectedEnd));
    assert_eq!(CAA::read_data(&[0, 5, b'i', b's'], 4), Err(CaaError::TagCharacterOutOfBounds));
    assert_eq!(CAA::read_data(&[0, 0, b'a'], 3), Err(CaaError::TagLengthOutOfBounds));
    assert_eq!(CAA::read_data(&[0, 16, b'a'], 30), Err(CaaError::TagLengthOutOfBounds));
    assert_eq!(CAA::read_data(&[0, 2, b'a', b'-'], 4), Err(CaaError::TagCharacterOutOfBounds));
    assert_eq!(CAA::read_data(&[0, 2, b'a'], 4), Err(CaaError::UnexpectedEnd));
    assert_eq!(CAA::read_data(&[0, 1, b'a', b'v'], 5), Err(CaaError::UnexpectedEnd));
}

#[test]
fn read_data_honours_length() {
    let rec = CAA::read_data(&[0x81, 1, b'a', b'v', b'w', b'x'], 4).unwrap();
    assert!(rec.issuer_critical());
    assert_eq!(rec.reserved_flags, 1);
    assert_eq!(rec.tag(), "a");
    assert_eq!(rec.raw_value(), b"v");
}

#[test]
fn read_tag_errors() {
    assert_eq!(read_tag(b"", 0), Err(CaaError::TagLengthOutOfBounds));
    assert_eq!(read_tag(b"ab", 3), Err(CaaError::UnexpectedEnd));
    assert_eq!(read_tag(b"a!c", 3), Err(CaaError::TagCharacterOutOfBounds));
    assert_eq!(read_tag(b"abcdef", 3).unwrap(), "abc");
}

#[test]
fn read_issuer_errors() {
    assert_eq!(read_issuer(b"\xff\xfe; a=b"), Err(CaaError::InvalidUtf8));
    assert_eq!(read_issuer(b"bad name; a=b"), Err(CaaError::InvalidName));
    assert_eq!(read_issuer(b"a..b"), Err(CaaError::InvalidName));
    assert_eq!(read_issuer(b"; -b=c"), Err(CaaError::BadKeyCharacter(b'-')));
    assert_eq!(read_issuer(b"; a b=c"), Err(CaaError::BadKeyCharacter(b'b')));
    assert_eq!(read_issuer(b"; =c"), Err(CaaError::BadKeyCharacter(b'=')));
    assert_eq!(read_issuer(b"; a=b c"), Err(CaaError::BadValueCharacter(b' ')));
    assert_eq!(read_issuer(b"; a=\x7f"), Err(CaaError::BadValueCharacter(0x7f)));
    assert_eq!(read_issuer(b"; abc"), Err(CaaError::KeyMissingValue("abc".to_string())));
    assert_eq!(read_issuer(b"; abc  "), Err(CaaError::KeyMissingValue("abc".to_string())));
    assert_eq!(read_issuer(b"; a; b=1"), Err(CaaError::BadKeyCharacter(b';')));
    assert_eq!(read_issuer(b"; a ;b=1"), Err(CaaError::BadKeyCharacter(b';')));
    assert_eq!(read_issuer(b"; ab-c=1").unwrap(), (None, vec![KeyValue::new("ab-c", "1")]));
    assert_eq!(
        read_issuer(b"x.org;;\tk=v;").unwrap(),
        (Some(name("x.org")), vec![KeyValue::new("k", "v")])
    );
}

#[test]
fn read_iodef_errors() {
    assert_eq!(read_iodef(b"\xff"), Err(CaaError::InvalidUtf8));
    assert_eq!(read_iodef(b"not a url"), Err(CaaError::InvalidUrl));
}

#[test]
fn encode_issuer_value_forms() {
    assert_eq!(encode_issuer_value(None, &[]), b";".to_vec());
    assert_eq!(encode_issuer_value(Some(&name("a.b")), &[]), b"a.b".to_vec());
    assert_eq!(
        encode_issuer_value(None, &[KeyValue::new("k", "v"), KeyValue::new("l", "w")]),
        b"; k=v; l=w".to_vec()
    );
}

#[test]
fn name_syntax() {
    assert!(Name::from_ascii("*.example.com").is_ok());
    assert!(Name::from_ascii("_srv.example.com").is_ok());
    assert!(Name::from_ascii(".").is_ok());
    assert_eq!(Name::from_ascii(""), Err(CaaError::InvalidName));
    assert_eq!(Name::from_ascii("-a.com"), Err(CaaError::InvalidName));
    assert_eq!(Name::from_ascii("a*b.com"), Err(CaaError::InvalidName));
    assert!(Name::from_ascii(&"a".repeat(63)).is_ok());
    assert_eq!(Name::from_ascii(&"a".repeat(64)), Err(CaaError::InvalidName));
    assert!(name("example.com.").is_fqdn());
    assert!(!name("example.com").is_fqdn());
}

#[test]
fn name_text_round_trip() {
    let n = name("Mixed-Case.example.");
    assert_eq!(n.to_ascii(), "Mixed-Case.example.");
    assert_eq!(Name::from_ascii(&n.to_ascii()).unwrap(), n);
}

#[test]
fn key_value_accessors() {
    let kv = KeyValue::new("account", "42");
    assert_eq!(kv.key(), "account");
    assert_eq!(kv.value(), "42");
}

#[test]
fn to_string_replaces_invalid_utf8() {
    assert_eq!(record(false, 7, "tbs", &[0xff]).to_string(), "7 tbs \"\u{fffd}\"");
    assert_eq!(record(false, 42, "tbs", b"ok").to_string(), "42 tbs \"ok\"");
}

#[test]
fn dash_may_follow_the_first_tag_byte() {
    assert_eq!(
        read_issuer(b"ca.example.net; a-b=c").unwrap(),
        (Some(name("ca.example.net")), vec![KeyValue::new("a-b", "c")])
    );
    let kvs = vec![KeyValue::new("a-b", "c"), KeyValue::new("x--1", "")];
    let encoded = encode_issuer_value(Some(&name("ca.example.net")), &kvs);
    assert_eq!(read_issuer(&encoded).unwrap(), (Some(name("ca.example.net")), kvs));
}

#[test]
fn white_space_is_allowed_where_the_grammar_allows_it() {
    assert_eq!(
        read_issuer(b"ca.example.net; policy=ev ").unwrap(),
        (Some(name("ca.example.net")), vec![KeyValue::new("policy", "ev")])
    );
    assert_eq!(
        read_issuer(b" \tca.example.net \t;\tpolicy \t= \tev\t ;  account=1  ").unwrap(),
        (
            Some(name("ca.example.net")),
            vec![KeyValue::new("policy", "ev"), KeyValue::new("account", "1")]
        )
    );
    assert_eq!(read_issuer(b"   ;  ").unwrap(), (None, vec![]));
    assert_eq!(read_issuer(b"  ").unwrap(), (None, vec![]));
}

#[test]
fn clones_are_equal() {
    let n = name("example.com.");
    assert_eq!(n.clone(), n);
    let kv = KeyValue::new("k", "v");
    assert_eq!(kv.clone(), kv);
}
