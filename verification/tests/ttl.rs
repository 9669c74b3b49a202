use zoneq::ttl::parse_ttl;

#[test]
fn plain_seconds() {
    assert_eq!(parse_ttl("86400"), Some(86400));
    assert_eq!(parse_ttl("0"), Some(0));
    assert_eq!(parse_ttl("2147483647"), Some(2147483647));
}

#[test]
fn units() {
    assert_eq!(parse_ttl("1h"), Some(3600));
    assert_eq!(parse_ttl("1D"), Some(86400));
    assert_eq!(parse_ttl("3W"), Some(3 * 604800));
    assert_eq!(parse_ttl("1h30m"), Some(5400));
    assert_eq!(
        parse_ttl("1w2d3h4m5s"),
        Some(604800 + 2 * 86400 + 3 * 3600 + 4 * 60 + 5)
    );
}

#[test]
fn overflow() {
    assert_eq!(parse_ttl("2147483648"), None);
    assert_eq!(parse_ttl("99999999999999999999"), None);
    assert_eq!(parse_ttl("4000w"), None);
}

#[test]
fn junk() {
    for raw in ["", "IN", "A", "h", "1h30", "1x", "-1", "1.5h"] {
        assert_eq!(parse_ttl(raw), None, "{raw}");
    }
}

#[test]
fn leading_zeros_and_mixed_case_units() {
    assert_eq!(parse_ttl("0001h01M"), Some(3660));
    assert_eq!(parse_ttl("2147483647s"), Some(2147483647));
    assert_eq!(parse_ttl("2147483648s"), None);
    assert_eq!(parse_ttl("1h0"), None);
}
