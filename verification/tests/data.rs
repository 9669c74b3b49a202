use zoneq::data::DataQuery;
use zoneq::name::Name;
use zoneq::zone::parse_str;
use zoneq::Error;

const ZONE: &str = r#"$ORIGIN example.com.
$TTL 60
@ SOA ns hostmaster 1 2 3 4 5
@ NS ns
@ MX 10 mail
@ MX 20 mail.example.net.
ns A 10.0.1.1
mail A 10.0.1.5
mail AAAA 2001:db8::5
www CNAME Mail
_sip._tcp SRV 0 5 5060 mail
note TXT "mail.example.com."
ten TXT 10
opaque A \# 4 0a000105
@ RRSIG A 8 2 60 20300101000000 20200101000000 1 example.com. c2ln
@ NSEC mail A NS SOA MX RRSIG NSEC
"#;

/// The text read as an IPv4 address, as its octets: four decimal parts.
fn ipv4(raw: &str) -> Option<Vec<u8>> {
    let parts: Vec<&str> = raw.split('.').collect();
    if parts.len() != 4 {
        return None;
    }
    parts
        .iter()
        .map(|p| {
            if p.is_empty() || !p.bytes().all(|b| b.is_ascii_digit()) {
                None
            } else {
                p.parse::<u8>().ok()
            }
        })
        .collect()
}

/// The text read as an IPv6 address, as its octets: eight hex groups, a
/// run of which may be left out as `::`.
fn ipv6(raw: &str) -> Option<Vec<u8>> {
    fn groups(part: &str) -> Option<Vec<u16>> {
        if part.is_empty() {
            return Some(Vec::new());
        }
        part.split(':')
            .map(|g| {
                if g.is_empty() || g.len() > 4 {
                    None
                } else {
                    u16::from_str_radix(g, 16).ok()
                }
            })
            .collect()
    }
    let words = match raw.split_once("::") {
        Some((head, tail)) => {
            let head = groups(head)?;
            let tail = groups(tail)?;
            if head.len() + tail.len() > 7 {
                return None;
            }
            let mut words = head;
            words.resize(8 - tail.len(), 0);
            words.extend(tail);
            words
        }
        None => groups(raw)?,
    };
    if words.len() != 8 {
        return None;
    }
    Some(words.iter().flat_map(|w| w.to_be_bytes()).collect())
}

/// The text read as an IP address, as its octets, when it is one.
fn octets(raw: &str) -> Option<Vec<u8>> {
    ipv4(raw).or_else(|| ipv6(raw))
}

fn parse(raw: &str, origin: Option<&Name>) -> Result<DataQuery, Error> {
    DataQuery::parse(raw, octets(raw), origin)
}

fn owners(data: &str) -> Vec<String> {
    let origin = Name::parse("example.com.", None).unwrap();
    let zone = parse_str(ZONE, "test.zone", None).unwrap();
    let query = parse(data, Some(&origin)).unwrap();
    zone.records
        .iter()
        .filter(|r| query.matches(r, r.rdata.first().and_then(|f| octets(f))))
        .map(|r| format!("{} {}", r.name.as_str(), r.rtype))
        .collect()
}

#[test]
fn names() {
    let pointing_at_mail = [
        "example.com. MX",
        "www.example.com. CNAME",
        "_sip._tcp.example.com. SRV",
    ];
    assert_eq!(owners("mail"), pointing_at_mail);
    assert_eq!(owners("MAIL.example.com"), pointing_at_mail);
    assert_eq!(owners("mail.example.com."), pointing_at_mail);
    assert_eq!(owners("mail.example.net"), ["example.com. MX"]);
    assert_eq!(owners("ns"), ["example.com. SOA", "example.com. NS"]);
    assert_eq!(owners("hostmaster"), ["example.com. SOA"]);
}

#[test]
fn data_subtree() {
    assert_eq!(owners(".example.net"), ["example.com. MX"]);
    assert_eq!(owners(".example.com").len(), 5);
}

#[test]
fn addresses() {
    assert_eq!(owners("10.0.1.5"), ["mail.example.com. A"]);
    assert_eq!(owners("2001:0db8:0:0::5"), ["mail.example.com. AAAA"]);
    assert!(owners("10.0.1.9").is_empty());
}

#[test]
fn ignores_fields_that_arent_names() {
    assert!(owners("10").is_empty());
    assert!(owners("5060").is_empty());
    assert!(owners("A").is_empty());
}

#[test]
fn data_rejects_bad_names() {
    assert!(matches!(parse("a..b", None), Err(Error::Query(_))));
    assert!(parse("", None).is_err());
}
