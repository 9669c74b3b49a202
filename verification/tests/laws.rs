use zoneq::data::DataQuery;
use zoneq::name::Name;
use zoneq::query::Query;
use zoneq::resolve::{parse_qname, resolve, Outcome};
use zoneq::zone::parse_str;
use zoneq::{format_record, record_type, select};

fn name(raw: &str) -> Name {
    Name::parse(raw, None).unwrap()
}

fn ancestors(n: &Name) -> Vec<Name> {
    let mut chain = vec![n.clone()];
    while let Some(parent) = chain.last().unwrap().parent() {
        chain.push(parent);
    }
    chain
}

#[test]
fn names_read_back_as_themselves() {
    let origin = name("Example.COM.");
    for raw in ["www", "a\\.b", "\\119ww", "@", ".", "x.y.z.", "m\\046x"] {
        let n = Name::parse(raw, Some(&origin)).unwrap();
        let again = Name::parse(n.as_str(), None).unwrap();
        assert_eq!(again.as_str(), n.as_str(), "{raw}");
    }
}

#[test]
fn a_wildcard_sits_below_its_name() {
    for raw in ["example.com.", ".", "a\\.b.example."] {
        let n = name(raw);
        assert_eq!(n.wildcard().parent().unwrap().as_str(), n.as_str());
    }
}

#[test]
fn parents_reach_the_root_one_label_at_a_time() {
    let n = name("a\\.b.www.Example.com.");
    let chain = ancestors(&n);
    assert_eq!(chain.len(), n.labels().len() + 1);
    assert_eq!(chain.last().unwrap().as_str(), ".");
    for (i, a) in chain.iter().enumerate() {
        assert!(n.is_at_or_below(a), "{}", a.as_str());
        assert_eq!(a.labels(), n.labels()[i..]);
    }
}

#[test]
fn below_means_an_ancestor() {
    let names = ["www.example.com.", "WWW.\\101xample.com.", "example.com.", "com.", ".", "example.org.", "a\\.example.com."];
    for a in names {
        for b in names {
            let (a, b) = (name(a), name(b));
            assert_eq!(
                a.is_at_or_below(&b),
                ancestors(&a).contains(&b),
                "{} {}",
                a.as_str(),
                b.as_str()
            );
            assert_eq!(a == b, a.key() == b.key());
        }
    }
}

#[test]
fn an_owner_finds_itself() {
    let origin = name("example.com.");
    for raw in ["www.example.com.", ".", "a\\.b.example.com.", "other.test."] {
        let n = name(raw);
        let q = Query::parse(n.as_str(), Some(&origin)).unwrap();
        assert!(q.matches(&n), "{raw}");
    }
}

#[test]
fn a_leading_dot_only_adds_names() {
    let origin = name("example.com.");
    let owners = ["www.example.com.", "a.www.example.com.", "www.", "mail.example.com."];
    for raw in ["www", "www.example.com", "WWW.example.com.", "@"] {
        let exact = Query::parse(raw, Some(&origin)).unwrap();
        let subtree = Query::parse(&format!(".{raw}"), Some(&origin)).unwrap();
        for owner in owners {
            let n = name(owner);
            assert!(!exact.matches(&n) || subtree.matches(&n), "{raw} {owner}");
        }
    }
}

const ZONE: &str = r#"$ORIGIN example.com.
$TTL 60
@           SOA   ns1 hostmaster 1 7200 3600 1209600 60
@           NS    ns1
ns1         A     192.0.2.1
www         A     192.0.2.10
alias       CNAME www
away        CNAME www.example.org.
loop1       CNAME loop2
loop2       CNAME loop1
*.corp      A     192.0.2.20
sub         NS    ns.sub
ns.sub      A     192.0.2.53
elsewhere.org. A  192.0.2.99
"#;

#[test]
fn answers_stay_inside_the_zone() {
    let zone = parse_str(ZONE, "test.zone", None).unwrap();
    let apex = zone.origin.clone().unwrap();
    for raw in ["www", "alias", "away", "loop1", "x.corp", "deep.sub", "nope", "@"] {
        for types in [vec![], vec!["A".to_string()], vec!["MX".to_string()]] {
            let q = parse_qname(raw, &apex).unwrap();
            assert!(q.is_at_or_below(&apex));
            let answer = resolve(&zone, &apex, &q, &types);
            for r in &answer.records {
                assert!(r.name.is_at_or_below(&apex), "{}", format_record(r));
            }
            if matches!(answer.outcome, Outcome::NoData | Outcome::NxDomain | Outcome::Loop) {
                assert!(answer.records.iter().all(|r| r.rtype == "CNAME"), "{raw}");
            }
            // Asking again by the full name is the same question.
            let again = parse_qname(q.as_str(), &apex).unwrap();
            assert_eq!(again.as_str(), q.as_str());
            let second = resolve(&zone, &apex, &again, &types);
            assert_eq!(second.outcome, answer.outcome);
            let lines: Vec<String> = answer.records.iter().map(format_record).collect();
            let second_lines: Vec<String> = second.records.iter().map(format_record).collect();
            assert_eq!(lines, second_lines);
        }
    }
}

#[test]
fn record_types_are_uppercased() {
    assert_eq!(record_type("aaaa").unwrap(), "AAAA");
    assert_eq!(record_type("Mx").unwrap(), "MX");
    assert_eq!(record_type("TYPE65").unwrap(), "TYPE65");
    assert_eq!(record_type("").unwrap_err(), "empty record type");
}

#[test]
fn select_combines_the_filters() {
    let zone = parse_str(ZONE, "test.zone", None).unwrap();
    let origin = zone.origin.as_ref();
    let addrs: Vec<Option<Vec<u8>>> = zone
        .records
        .iter()
        .map(|r| match r.rdata[0].as_str() {
            "192.0.2.10" => Some(vec![192, 0, 2, 10]),
            _ => None,
        })
        .collect();
    let everything = Query::parse(".", origin).unwrap();
    let owners = |picked: Vec<usize>| -> Vec<String> {
        picked
            .iter()
            .map(|&i| format!("{} {}", zone.records[i].name.as_str(), zone.records[i].rtype))
            .collect()
    };

    let cnames = select(&zone.records, &addrs, None, &everything, &["cname".to_string()]);
    assert_eq!(
        owners(cnames),
        [
            "alias.example.com. CNAME",
            "away.example.com. CNAME",
            "loop1.example.com. CNAME",
            "loop2.example.com. CNAME"
        ]
    );

    let www = DataQuery::parse("www", None, origin).unwrap();
    let pointing = select(&zone.records, &addrs, Some(&www), &everything, &[]);
    assert_eq!(owners(pointing), ["alias.example.com. CNAME"]);

    let addr = DataQuery::parse("192.0.2.10", Some(vec![192, 0, 2, 10]), origin).unwrap();
    let holding = select(&zone.records, &addrs, Some(&addr), &everything, &[]);
    assert_eq!(owners(holding), ["www.example.com. A"]);

    let below = Query::parse(".corp", origin).unwrap();
    assert!(select(&zone.records, &addrs, None, &below, &[]).len() == 1);
}

#[test]
fn printed_records_read_back() {
    let text = "$ORIGIN example.com.\n$TTL 60\n\
        @ SOA ns1 hostmaster ( 1 7200 3600 1209600 60 )\n\
        www IN A 192.0.2.10\n\
        txt 300 TXT \"v=spf1 ~all; x\" \"a \\\"b\\\"\"\n\
        mx MX 10 mail\n\
        a\\.b CH TXT plain\n\
        gen CLASS1 TYPE731 \\# 2 abcd\n";
    let zone = parse_str(text, "test.zone", None).unwrap();
    let printed: Vec<String> = zone.records.iter().map(format_record).collect();
    let again = parse_str(&printed.join("\n"), "printed.zone", None).unwrap();
    let reprinted: Vec<String> = again.records.iter().map(format_record).collect();
    assert_eq!(printed, reprinted);
    assert_eq!(printed.len(), 6);
}

#[test]
fn spelling_octets_as_escapes_keeps_the_name() {
    let a = name("Www.a\\.b.Example.");
    let spelled = name("\\087\\119\\119.\\097\\046\\098.\\069\\120\\097\\109\\112\\108\\101.");
    assert_eq!(spelled, a);
    assert_eq!(spelled.key(), a.key());
    for b in ["example.", "a\\.b.example.", "www.a\\.b.example.", "b.example.", "."] {
        let b = name(b);
        assert_eq!(spelled.is_at_or_below(&b), a.is_at_or_below(&b), "{}", b.as_str());
    }
}

#[test]
fn owners_with_private_use_characters_read_back() {
    // U+F000 and U+FEFF begin with the byte 0xEF; only a byte order mark at
    // the very start of the text is skipped.
    let text = "$ORIGIN example.com.\n$TTL 60\n\
        \u{f000}x A 192.0.2.1\n\
        \u{feff}y A 192.0.2.2\n";
    let zone = parse_str(text, "test.zone", None).unwrap();
    let printed: Vec<String> = zone.records.iter().map(format_record).collect();
    assert_eq!(printed[0], "\u{f000}x.example.com.\t60\tIN\tA\t192.0.2.1");
    let again = parse_str(&printed.join("\n"), "printed.zone", None).unwrap();
    let reprinted: Vec<String> = again.records.iter().map(format_record).collect();
    assert_eq!(printed, reprinted);
}

#[test]
fn a_plain_key_is_the_lowercased_text() {
    for raw in ["WWW.Example.COM.", ".", "a-b.C_d.", "x..y."] {
        if let Ok(n) = Name::parse(raw, None) {
            assert_eq!(n.key(), n.as_str().to_ascii_lowercase().into_bytes(), "{raw}");
        }
    }
    assert_eq!(name("WWW.Example.COM.").key(), b"www.example.com.".to_vec());
}

#[test]
fn every_name_is_absolute_without_empty_labels() {
    let origin = name("example.com.");
    let made = [
        Name::root(),
        name("www.example.com."),
        Name::parse("a\\.b", Some(&origin)).unwrap(),
        origin.wildcard(),
        Name::root().wildcard(),
        origin.parent().unwrap(),
    ];
    for n in &made {
        assert!(n.as_str().ends_with('.'));
        assert!(n.as_str() == "." || n.labels().iter().all(|l| !l.is_empty()), "{}", n.as_str());
        assert_eq!(n.as_str(), n.clone().into_string());
    }
    assert!(Name::parse("a..b.", None).is_err());
    assert!(Name::parse("..", None).is_err());
}
