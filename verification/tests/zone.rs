use zoneq::format_record;
use zoneq::name::Name;
use zoneq::zone::{decode, parse_str, Zone};
use zoneq::Error;

fn parse(input: &str) -> Result<Zone, Error> {
    parse_str(input, "test.zone", None)
}

fn lines(zone: &Zone) -> Vec<String> {
    zone.records.iter().map(format_record).collect()
}

#[test]
fn origin_directive() {
    // With and without the trailing dot, and with a comment after it.
    for input in [
        "$ORIGIN example.com\n",
        "$ORIGIN example.com.\n",
        "$ORIGIN example.com; this is a comment\n",
        "$ORIGIN example.com ; this is a comment\n",
    ] {
        let zone = parse(input).unwrap();
        assert_eq!(zone.origin.unwrap().as_str(), "example.com.", "{input}");
    }
}

#[test]
fn second_origin_is_relative_to_the_first() {
    let zone = parse("$ORIGIN com.\n$ORIGIN example\nwww 60 A 192.0.2.1\n").unwrap();
    assert_eq!(zone.origin.unwrap().as_str(), "com.");
    assert_eq!(zone.records[0].name.as_str(), "www.example.com.");
}

#[test]
fn ttl_and_class_in_either_order() {
    let zone =
        parse("$ORIGIN example.com.\na 60 IN A 192.0.2.1\nb IN 1h A 192.0.2.2\nc ch 5 TXT x\n")
            .unwrap();
    assert_eq!(
        lines(&zone),
        [
            "a.example.com.\t60\tIN\tA\t192.0.2.1",
            "b.example.com.\t3600\tIN\tA\t192.0.2.2",
            "c.example.com.\t5\tCH\tTXT\tx",
        ]
    );
}

#[test]
fn owner_and_class_inherit() {
    let zone =
        parse("$ORIGIN example.com.\nwww 60 CH A 192.0.2.1\n\n; gap\n  AAAA ::1\n").unwrap();
    assert_eq!(zone.records[1].name.as_str(), "www.example.com.");
    assert_eq!(zone.records[1].class, "CH");
}

#[test]
fn ttl_fallbacks() {
    // $TTL wins over the previous explicit TTL.
    let zone = parse("$ORIGIN x.\na 60 A 192.0.2.1\n$TTL 300\nb A 192.0.2.2\n").unwrap();
    assert_eq!(zone.records[1].ttl, 300);

    // Without $TTL, the last explicit TTL carries on.
    let zone = parse("$ORIGIN x.\na 60 A 192.0.2.1\nb A 192.0.2.2\n").unwrap();
    assert_eq!(zone.records[1].ttl, 60);

    // Without either, the SOA minimum, which then acts like $TTL.
    let zone = parse(
        "$ORIGIN x.\n@ SOA ns host 1 2 3 4 1h\nb A 192.0.2.2\nc 60 A 192.0.2.3\nd A 192.0.2.4\n",
    )
    .unwrap();
    assert_eq!(
        zone.records.iter().map(|r| r.ttl).collect::<Vec<_>>(),
        [3600, 3600, 60, 3600]
    );

    let err = parse("$ORIGIN x.\na A 192.0.2.1\n").unwrap_err();
    assert!(err.to_string().starts_with("test.zone:2: no TTL"), "{}", err.to_string());
}

#[test]
fn qualifies_names_in_rdata() {
    let zone = parse(
        "$ORIGIN example.com.\n$TTL 60\n@ MX 10 mail\n@ NS ns.other.\nwww CNAME @\n_sip._tcp SRV 0 5 5060 sip\n@ TXT mail\n",
    )
    .unwrap();
    assert_eq!(
        zone.records
            .iter()
            .map(|r| r.rdata.join(" "))
            .collect::<Vec<_>>(),
        [
            "10 mail.example.com.",
            "ns.other.",
            "example.com.",
            "0 5 5060 sip.example.com.",
            "mail",
        ]
    );
}

#[test]
fn qualifies_names_in_newer_types() {
    let zone = parse(
        "$ORIGIN example.com.\n$TTL 60\n\
         @ HTTPS 1 svc alpn=h2\n\
         @ NAPTR 100 10 \"u\" \"E2U+sip\" \"\" sip\n\
         @ RP admin info\n\
         @ NSEC next A NSEC RRSIG\n\
         @ RRSIG A 13 2 60 20260101000000 20250101000000 1234 @ c2ln\n",
    )
    .unwrap();
    assert_eq!(
        zone.records
            .iter()
            .map(|r| r.rdata.join(" "))
            .collect::<Vec<_>>(),
        [
            "1 svc.example.com. alpn=h2",
            "100 10 \"u\" \"E2U+sip\" \"\" sip.example.com.",
            "admin.example.com. info.example.com.",
            "next.example.com. A NSEC RRSIG",
            "A 13 2 60 20260101000000 20250101000000 1234 example.com. c2ln",
        ]
    );
}

#[test]
fn generic_types_pass_through() {
    let zone = parse("$ORIGIN x.\n$TTL 60\na CLASS1 TYPE731 \\# 2 abcd\n").unwrap();
    assert_eq!(lines(&zone), ["a.x.\t60\tCLASS1\tTYPE731\t\\# 2 abcd"]);
}

#[test]
fn generic_rdata_is_not_qualified() {
    let zone = parse(
        "$ORIGIN x.\n$TTL 60\nwww CNAME \\# 3 abcdef\n@ MX \\# 4 000a0000\n@ SOA \\# 1 00\n",
    )
    .unwrap();
    assert_eq!(
        zone.records
            .iter()
            .map(|r| r.rdata.join(" "))
            .collect::<Vec<_>>(),
        ["\\# 3 abcdef", "\\# 4 000a0000", "\\# 1 00"]
    );
}

#[test]
fn file_origin_beats_the_fallback() {
    let fallback = Name::parse("fallback.test.", None).unwrap();
    let zone = parse_str("$ORIGIN example.com.\n", "test.zone", Some(fallback.clone())).unwrap();
    assert_eq!(zone.origin.unwrap().as_str(), "example.com.");

    let zone = parse_str("", "test.zone", Some(fallback.clone())).unwrap();
    assert_eq!(zone.origin, Some(fallback));
}

#[test]
fn soa_owner_is_the_origin() {
    // How BIND writes the zone files it keeps.
    let zone = parse(
        "$ORIGIN .\n$TTL 3600\n\
         example.com IN SOA ns1.example.com. admin.example.com. ( 1 2 3 4 5 )\n\
         $ORIGIN example.com.\nwww A 192.0.2.1\n",
    )
    .unwrap();
    assert_eq!(zone.origin.unwrap().as_str(), "example.com.");

    // A transfer dump, with absolute names and no $ORIGIN at all.
    let zone = parse(
        "example.com. 60 IN SOA ns.example.com. host.example.com. 1 2 3 4 5\n\
         www.example.com. 60 IN A 192.0.2.1\n",
    )
    .unwrap();
    assert_eq!(zone.origin.unwrap().as_str(), "example.com.");
}

#[test]
fn bytes_that_are_not_utf8_become_escapes() {
    assert_eq!(decode(b"caf\xe9".to_vec()), r"caf\233");
    assert_eq!(decode(b"caf\\\xe9".to_vec()), r"caf\233");
    assert_eq!(decode(b"a\\\\\xe9".to_vec()), r"a\\\233");

    let text = decode(b"$ORIGIN example.com.\n$TTL 60\nwww TXT \"caf\xe9\" ; Andr\xe9\n".to_vec());
    let zone = parse_str(&text, "test.zone", None).unwrap();
    assert_eq!(zone.records[0].rdata, [r#""caf\233""#]);
}

#[test]
fn errors_carry_line_numbers() {
    let cases = [
        (
            "$GENERATE 1-10 host$ A 10.0.0.$\n",
            1,
            "unsupported directive",
        ),
        ("$ORIGIN x.\n\nwww 60\n", 3, "missing record type"),
        ("$ORIGIN x.\nwww 60 A\n", 2, "A record has no data"),
        ("  A 192.0.2.1\n", 1, "no owner name"),
        ("www 60 A 192.0.2.1\n", 1, "relative name www"),
        (
            "$ORIGIN x.\n@ 60 SOA ns host 1 2 3\n",
            2,
            "SOA needs 7 fields",
        ),
        ("$TTL forever\n", 1, "invalid TTL"),
        (
            "$ORIGIN x.\nwww 4294967295 A 192.0.2.1\n",
            2,
            "invalid TTL 4294967295",
        ),
    ];
    for (input, line, message) in cases {
        match parse(input) {
            Err(Error::Parse {
                line: l,
                message: m,
                ..
            }) => {
                assert_eq!(l, line, "{input}");
                assert!(m.contains(message), "{input}: {m}");
            }
            other => panic!("{input}: {other:?}"),
        }
    }
}

#[test]
fn valid_utf8_is_kept_and_truncated_sequences_are_escaped() {
    assert_eq!(decode("na\u{ef}ve".as_bytes().to_vec()), "na\u{ef}ve");
    assert_eq!(decode(b"\xe2\x82A".to_vec()), r"\226\130A");
    assert_eq!(decode(b"\xed\xa0\x80".to_vec()), r"\237\160\128");
}

#[test]
fn include_is_an_error_without_files() {
    match parse("$ORIGIN x.\n$INCLUDE other.zone\n") {
        Err(Error::Parse { line, .. }) => assert_eq!(line, 2),
        other => panic!("{other:?}"),
    }
}

#[test]
fn soa_needs_seven_fields_says_how_many() {
    let err = parse("$ORIGIN x.\n@ 60 SOA ns host 1 2 3\n").unwrap_err();
    assert_eq!(err.to_string(), "test.zone:2: SOA needs 7 fields, found 5");
}

#[test]
fn lexer_errors_carry_the_source() {
    let err = parse("a (\n").unwrap_err();
    assert_eq!(err.to_string(), "test.zone:1: unclosed (");
}
