use zoneq::format_record;
use zoneq::name::Name;
use zoneq::resolve::{parse_qname, run, Outcome, MAX_CHAIN};
use zoneq::zone::{parse_str, Zone};
use zoneq::Error;

const ZONE: &str = r#"$ORIGIN example.com.
$TTL 60
@           SOA   ns1 hostmaster 1 7200 3600 1209600 60
@           NS    ns1
ns1         A     192.0.2.1
www         A     192.0.2.10
www         AAAA  2001:db8::10
alias       CNAME www
chain       CNAME alias
away        CNAME www.example.org.
loop1       CNAME loop2
loop2       CNAME loop1
*.corp      A     192.0.2.20
*.corp      TXT   "wild"
a.ent.corp  A     192.0.2.30
*.cdn       CNAME www
sub         NS    ns.sub
sub         NS    ns.other.
sub         DS    12345 8 2 ABCD
ns.sub      A     192.0.2.53
ns.sub      AAAA  2001:db8::53
into-sub    CNAME host.sub
"#;

fn zone() -> Zone {
    parse_str(ZONE, "test.zone", None).unwrap()
}

fn ask(qname: &str, types: &[&str]) -> (Vec<String>, Outcome) {
    let types: Vec<String> = types.iter().map(|t| t.to_string()).collect();
    let response = run(&zone(), qname, &types).unwrap();
    let lines = response.records.iter().map(format_record).collect();
    (lines, response.outcome)
}

#[test]
fn resolve_exact_match() {
    assert_eq!(
        ask("www", &["A"]),
        (
            vec!["www.example.com.\t60\tIN\tA\t192.0.2.10".into()],
            Outcome::Answer
        )
    );
    assert_eq!(ask("www", &[]).0.len(), 2);
    assert_eq!(ask("www", &["A", "AAAA"]).0.len(), 2);
    assert_eq!(ask("WWW.Example.COM.", &["A"]).1, Outcome::Answer);
}

#[test]
fn nodata_and_nxdomain() {
    assert_eq!(ask("www", &["MX"]), (vec![], Outcome::NoData));
    assert_eq!(ask("nope", &["A"]), (vec![], Outcome::NxDomain));
    assert_eq!(ask("x.www", &[]), (vec![], Outcome::NxDomain));
}

#[test]
fn follows_cnames_inside_the_zone() {
    assert_eq!(
        ask("chain", &["A"]),
        (
            vec![
                "chain.example.com.\t60\tIN\tCNAME\talias.example.com.".into(),
                "alias.example.com.\t60\tIN\tCNAME\twww.example.com.".into(),
                "www.example.com.\t60\tIN\tA\t192.0.2.10".into(),
            ],
            Outcome::Answer
        )
    );
}

#[test]
fn cname_chain_can_end_in_nodata() {
    let (lines, outcome) = ask("alias", &["MX"]);
    assert_eq!(lines.len(), 1);
    assert_eq!(outcome, Outcome::NoData);
}

#[test]
fn asking_for_the_cname_stops_there() {
    for types in [&["CNAME"][..], &["A", "CNAME"], &[]] {
        assert_eq!(
            ask("alias", types),
            (
                vec!["alias.example.com.\t60\tIN\tCNAME\twww.example.com.".into()],
                Outcome::Answer
            ),
            "{types:?}"
        );
    }
}

#[test]
fn cnames_out_of_the_zone_stop() {
    assert_eq!(
        ask("away", &["A"]),
        (
            vec!["away.example.com.\t60\tIN\tCNAME\twww.example.org.".into()],
            Outcome::Answer
        )
    );
}

#[test]
fn cname_loops_stop() {
    let (lines, outcome) = ask("loop1", &["A"]);
    assert_eq!(lines.len(), 2);
    assert_eq!(outcome, Outcome::Loop);
}

#[test]
fn long_cname_chains_stop() {
    let mut text = "$ORIGIN example.com.\n$TTL 60\n@ SOA ns1 host 1 2 3 4 5\n".to_string();
    for i in 0..20 {
        text.push_str(&format!("c{i} CNAME c{}\n", i + 1));
    }
    text.push_str("c20 A 192.0.2.1\n");
    let zone = parse_str(&text, "test.zone", None).unwrap();
    let types = ["A".to_string()];

    let long = run(&zone, "c0", &types).unwrap();
    assert_eq!(long.records.len(), MAX_CHAIN);
    assert_eq!(long.outcome, Outcome::Loop);

    // c4 is exactly MAX_CHAIN CNAMEs away from the A.
    let limit = run(&zone, "c4", &types).unwrap();
    assert_eq!(limit.records.len(), MAX_CHAIN + 1);
    assert_eq!(limit.outcome, Outcome::Answer);
}

#[test]
fn wildcards_are_synthesised() {
    assert_eq!(
        ask("host.corp", &["A"]),
        (
            vec!["host.corp.example.com.\t60\tIN\tA\t192.0.2.20".into()],
            Outcome::Answer
        )
    );
    // More than one label can match the `*`.
    assert_eq!(ask("a.b.corp", &[]).0.len(), 2);
    assert_eq!(ask("host.corp", &["MX"]), (vec![], Outcome::NoData));
    // Asking for the wildcard itself is an exact match.
    assert_eq!(
        ask("*.corp", &["A"]).0,
        ["*.corp.example.com.\t60\tIN\tA\t192.0.2.20"]
    );
}

#[test]
fn empty_non_terminals_block_wildcards() {
    // ent.corp has no records, but a.ent.corp does, so it exists.
    assert_eq!(ask("ent.corp", &[]), (vec![], Outcome::NoData));
    assert_eq!(ask("x.ent.corp", &[]), (vec![], Outcome::NxDomain));
    // And an existing name isn't covered by the wildcard above it.
    assert_eq!(ask("x.a.ent.corp", &[]), (vec![], Outcome::NxDomain));
}

#[test]
fn wildcard_cnames_are_followed() {
    assert_eq!(
        ask("img.cdn", &["AAAA"]),
        (
            vec![
                "img.cdn.example.com.\t60\tIN\tCNAME\twww.example.com.".into(),
                "www.example.com.\t60\tIN\tAAAA\t2001:db8::10".into(),
            ],
            Outcome::Answer
        )
    );
}

#[test]
fn delegations_refer_with_glue() {
    let referral = vec![
        "sub.example.com.\t60\tIN\tNS\tns.sub.example.com.".to_string(),
        "sub.example.com.\t60\tIN\tNS\tns.other.".into(),
        "ns.sub.example.com.\t60\tIN\tA\t192.0.2.53".into(),
        "ns.sub.example.com.\t60\tIN\tAAAA\t2001:db8::53".into(),
    ];
    assert_eq!(ask("sub", &["A"]), (referral.clone(), Outcome::Referral));
    assert_eq!(ask("sub", &[]), (referral.clone(), Outcome::Referral));
    // Everything below the cut belongs to the child, glue included.
    assert_eq!(
        ask("deep.host.sub", &["TXT"]),
        (referral.clone(), Outcome::Referral)
    );
    assert_eq!(ask("ns.sub", &["A"]), (referral.clone(), Outcome::Referral));
    assert_eq!(ask("x.ns.sub", &["DS"]), (referral, Outcome::Referral));
}

#[test]
fn ds_at_the_cut_is_answered() {
    assert_eq!(
        ask("sub", &["DS"]),
        (
            vec!["sub.example.com.\t60\tIN\tDS\t12345 8 2 ABCD".into()],
            Outcome::Answer
        )
    );
    assert_eq!(ask("sub", &["DS", "A"]).1, Outcome::Referral);
}

#[test]
fn cnames_into_a_delegation_refer() {
    let (lines, outcome) = ask("into-sub", &["A"]);
    assert_eq!(
        lines[0],
        "into-sub.example.com.\t60\tIN\tCNAME\thost.sub.example.com."
    );
    assert_eq!(lines.len(), 5);
    assert_eq!(outcome, Outcome::Referral);
}

#[test]
fn the_apex_answers_for_itself() {
    assert_eq!(
        ask("@", &["NS"]).0,
        ["example.com.\t60\tIN\tNS\tns1.example.com."]
    );
    assert_eq!(ask("example.com", &["SOA"]).1, Outcome::Answer);
}

#[test]
fn query_names() {
    let apex = Name::parse("example.com.", None).unwrap();
    let parse = |raw| parse_qname(raw, &apex).map(Name::into_string);
    assert_eq!(parse("www").unwrap(), "www.example.com.");
    assert_eq!(parse("www.example.com").unwrap(), "www.example.com.");
    assert_eq!(parse("www.example.com.").unwrap(), "www.example.com.");
    assert_eq!(parse("@").unwrap(), "example.com.");
    // Written as a relative name, this one is inside the zone.
    assert_eq!(
        parse("www.example.org").unwrap(),
        "www.example.org.example.com."
    );
    for bad in ["", ".", ".example.com", "www.example.org.", "a..b"] {
        assert!(matches!(parse(bad), Err(Error::Query(_))), "{bad}");
    }
}

#[test]
fn the_root_zone_answers_for_dot() {
    let zone = parse_str(
        ". 60 SOA a.root. host. 1 2 3 4 5\n. 60 NS a.root.\n",
        "t",
        None,
    )
    .unwrap();
    let response = run(&zone, ".", &["NS".to_string()]).unwrap();
    assert_eq!(response.outcome, Outcome::Answer);
    assert!(run(&zone, ".com", &[]).is_err());
}

#[test]
fn escapes_find_the_names_they_spell() {
    let text = "$ORIGIN example.com.\n$TTL 60\n@ SOA ns1 host 1 2 3 4 5\n\\119ww A 192.0.2.1\na\\.b A 192.0.2.2\n";
    let zone = parse_str(text, "t", None).unwrap();
    assert_eq!(run(&zone, "WWW", &[]).unwrap().outcome, Outcome::Answer);
    assert_eq!(run(&zone, r"a\046b", &[]).unwrap().outcome, Outcome::Answer);
    // The escaped dot isn't a label break, so there's no b to be below.
    assert_eq!(run(&zone, "b", &[]).unwrap().outcome, Outcome::NxDomain);
}

#[test]
fn needs_an_apex() {
    let zone = parse_str("www.example.com. 60 A 192.0.2.1\n", "t", None).unwrap();
    assert!(matches!(
        run(&zone, "www.example.com.", &[]),
        Err(Error::Query(_))
    ));
}

#[test]
fn records_outside_the_zone_are_ignored() {
    let text = "$ORIGIN example.com.\n$TTL 60\n@ SOA ns1 host 1 2 3 4 5\nwww.example.org. A 192.0.2.1\n";
    let zone = parse_str(text, "t", None).unwrap();
    assert!(run(&zone, "www.example.org.", &[]).is_err());
    assert_eq!(run(&zone, "org", &[]).unwrap().outcome, Outcome::NxDomain);
}
