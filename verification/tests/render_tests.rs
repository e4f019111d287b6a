use dns_zone_lint::parse::parse_line;
use dns_zone_lint::render::json_escape;
use dns_zone_lint::record::{ParseError, Record, RecordData, ZoneContext};

fn parse(line: &str) -> Record {
    parse_line(line, &ZoneContext::default()).unwrap()
}

#[test]
fn reprints_readme_zone_in_consistent_layout() {
    let cases = [
        ("example.com.      3600 IN A     192.0.2.1", "example.com.             3600    IN  A      192.0.2.1"),
        ("www.example.com.  3600 IN CNAME example.com.", "www.example.com.         3600    IN  CNAME  example.com."),
        ("example.com.      3600 IN MX    10 mail.example.com.", "example.com.             3600    IN  MX     10 mail.example.com."),
        ("example.com.      3600 IN TXT   \"v=spf1 -all\"", "example.com.             3600    IN  TXT    \"v=spf1 -all\""),
        (
            "example.com.      3600 IN SOA   ns1.example.com. admin.example.com. 2024010101 7200 3600 1209600 3600",
            "example.com.             3600    IN  SOA    ns1.example.com. admin.example.com. 2024010101 7200 3600 1209600 3600",
        ),
        (
            "_sip._tcp.example.com. 3600 IN SRV 10 60 5060 sipserver.example.com.",
            "_sip._tcp.example.com.   3600    IN  SRV    10 60 5060 sipserver.example.com.",
        ),
    ];
    for (input, expected) in cases {
        assert_eq!(parse(input).to_string(), expected);
    }
}

#[test]
fn reprinted_line_parses_back_to_the_same_record() {
    let lines = [
        "example.com. 3600 IN A 192.0.2.1",
        "host 60 in aaaa 2001:DB8:0:0:1:0:0:1",
        "example.com. 3600 IN TXT \"say \\\"hi\\\" \\x\"",
        "@ 1 SOA a. b. 1 2 3 4 5",
        "x. 7 MX 0 mail",
    ];
    for line in lines {
        let r = parse(line);
        let again = parse(&r.to_string());
        assert_eq!(again, r);
    }
}

#[test]
fn ipv6_is_printed_canonically() {
    let cases = [
        ("2001:db8:0:0:1:0:0:1", "2001:db8::1:0:0:1"),
        ("2001:0db8:0000:0000:0000:0000:0000:0001", "2001:db8::1"),
        ("::", "::"),
        ("::1", "::1"),
        ("1::", "1::"),
        ("1:0:1:0:1:0:1:0", "1:0:1:0:1:0:1:0"),
        ("::ffff:192.0.2.1", "::ffff:192.0.2.1"),
        ("::192.0.2.1", "::c000:201"),
        ("1:2:3:4:5:6:1.2.3.4", "1:2:3:4:5:6:102:304"),
        ("1:2:3:4:5:6:7::", "1:2:3:4:5:6:7:0"),
    ];
    for (input, expected) in cases {
        let r = parse(&format!("h. 1 AAAA {input}"));
        let line = r.to_string();
        assert!(line.ends_with(&format!(" {expected}")), "{input} printed as {line}");
    }
}

#[test]
fn ipv6_segments_are_parsed() {
    let r = parse("h. 1 AAAA 2001:db8::ff00:42:8329");
    assert_eq!(r.data, RecordData::Aaaa([0x2001, 0xdb8, 0, 0, 0, 0xff00, 0x42, 0x8329]));
    let r = parse("h. 1 AAAA ::ffff:10.0.0.1");
    assert_eq!(r.data, RecordData::Aaaa([0, 0, 0, 0, 0, 0xffff, 0x0a00, 0x0001]));
}

#[test]
fn ipv6_rejects_malformed_text() {
    for bad in [
        "", "1:2:3:4:5:6:7", "1:2:3:4:5:6:7:8:9", "1::2::3", ":::", ":1::2", "12345::", "1.2.3.4",
        "1.2.3.4::", "1:2:3:4:5:6::1.2.3.4", "g::", "1:2:3:4:5:6:7:8::", "::1.2.3.04", "::1.2.3",
    ] {
        let line = format!("h. 1 AAAA {bad}");
        let err = parse_line(&line, &ZoneContext::default()).unwrap_err();
        match err {
            ParseError::BadAddress(_) | ParseError::MissingField(_) => {}
            other => panic!("{bad}: unexpected {other:?}"),
        }
    }
}

#[test]
fn ipv4_rejects_malformed_text() {
    for bad in ["192.0.2", "192.0.2.1.5", "256.0.0.1", "01.2.3.4", "1..2.3", "1.2.3.4 x", "+1.2.3.4"] {
        let err = parse_line(&format!("h. 1 A {bad}"), &ZoneContext::default()).unwrap_err();
        assert!(matches!(err, ParseError::BadAddress(s) if s == bad), "{bad}");
    }
    assert_eq!(parse("h. 1 A 0.0.0.0").data, RecordData::A([0, 0, 0, 0]));
    assert_eq!(parse("h. 1 A 255.255.255.255").data, RecordData::A([255, 255, 255, 255]));
}

#[test]
fn json_output() {
    let r = parse("example.com. 3600 IN MX 10 mail.example.com.");
    assert_eq!(
        r.to_json(),
        r#"{"name":"example.com.","ttl":3600,"type":"MX","data":{"preference":10,"exchange":"mail.example.com."}}"#
    );
    let r = parse("t. 5 TXT \"a\\\"b\tc\\\\\u{1}\"");
    assert_eq!(
        r.to_json(),
        r#"{"name":"t.","ttl":5,"type":"TXT","data":{"text":"a\"b\tc\\\\\u0001"}}"#
    );
    let r = parse("h. 1 AAAA ::1");
    assert_eq!(r.to_json(), r#"{"name":"h.","ttl":1,"type":"AAAA","data":{"address":"::1"}}"#);
}

#[test]
fn txt_escapes_are_decoded() {
    let r = parse("t. 1 TXT \"a\\\"b\\nc\"");
    assert_eq!(r.data, RecordData::Txt("a\"b\\nc".to_string()));
    let err = parse_line("t. 1 TXT \"abc\\\"", &ZoneContext::default()).unwrap_err();
    assert!(matches!(err, ParseError::BadTxt(_)));
}

#[test]
fn error_messages() {
    let e = parse_line("example.com. 3600 IN A not-an-ip", &ZoneContext::default()).unwrap_err();
    assert_eq!(e.to_string(), "invalid address 'not-an-ip'");
    assert_eq!(ParseError::MissingField("ttl").to_string(), "missing ttl field");
    assert_eq!(ParseError::BadSoaField("serial", "x".to_string()).to_string(), "invalid SOA serial 'x'");
    assert_eq!(ParseError::BadOrigin("-".to_string()).to_string(), "invalid $ORIGIN value '-'");
}

#[test]
fn class_and_ttl_in_either_order_and_any_case() {
    let r = parse("example.com. in 300 a 192.0.2.1");
    assert_eq!(r.ttl, 300);
    assert_eq!(r.data, RecordData::A([192, 0, 2, 1]));
}

#[test]
fn unicode_whitespace_separates_fields() {
    let r = parse("example.com.\u{a0}3600\u{3000}IN\tA 192.0.2.1\u{2003}");
    assert_eq!(r.data, RecordData::A([192, 0, 2, 1]));
}

#[test]
fn mx_preference_may_have_plus_sign() {
    let r = parse("x. 1 MX +10 mail.x.");
    assert!(matches!(r.data, RecordData::Mx { preference: 10, .. }));
    let err = parse_line("x. 1 MX 65536 mail.x.", &ZoneContext::default()).unwrap_err();
    assert!(matches!(err, ParseError::BadMxPreference(s) if s == "65536"));
}

#[test]
fn json_escape_quotes_and_escapes() {
    assert_eq!(json_escape("plain"), "\"plain\"");
    assert_eq!(json_escape("a\"b\\c\nd\re\tf\u{1f}g\u{7f}é"), "\"a\\\"b\\\\c\\nd\\re\\tf\\u001fg\u{7f}é\"");
    assert_eq!(json_escape(""), "\"\"");
}

#[test]
fn every_error_message() {
    let cases = [
        (ParseError::BadTtl("x".to_string()), "invalid ttl 'x'"),
        (ParseError::UnsupportedClass("CH".to_string()), "unsupported class 'CH' (only IN is handled)"),
        (ParseError::UnknownType("X".to_string()), "unknown record type 'X'"),
        (ParseError::BadName("-".to_string()), "invalid domain name '-'"),
        (ParseError::BadMxPreference("t".to_string()), "invalid MX preference 't'"),
        (ParseError::BadTxt("h".to_string()), "invalid TXT data 'h' (expected a quoted string)"),
        (ParseError::BadSrvField("port", "p".to_string()), "invalid SRV port 'p'"),
        (ParseError::TrailingData("e".to_string()), "unexpected trailing data 'e'"),
    ];
    for (e, msg) in cases {
        assert_eq!(e.to_string(), msg);
    }
}

#[test]
fn long_names_are_not_truncated_by_the_layout() {
    let name = "a-very-long-label-name-for-testing.example.com.";
    let r = parse(&format!("{name} 4294967295 IN PTR host.example."));
    assert_eq!(r.to_string(), format!("{name} 4294967295 IN  PTR    host.example."));
}
