use zoneq::name::Name;
use zoneq::query::Query;
use zoneq::Error;

fn name(raw: &str) -> Name {
    Name::parse(raw, None).unwrap()
}

fn matches(query: &str, owner: &str) -> bool {
    let origin = name("example.com.");
    Query::parse(query, Some(&origin))
        .unwrap()
        .matches(&name(owner))
}

#[test]
fn exact() {
    assert!(matches("www", "www.example.com."));
    assert!(matches("WWW.example.com", "www.example.com."));
    assert!(matches("www.example.com.", "www.example.com."));
    assert!(matches("@", "example.com."));
    assert!(!matches("www", "a.www.example.com."));
    assert!(!matches("www.", "www.example.com."));
}

#[test]
fn query_subtree() {
    assert!(matches(".example.com", "example.com."));
    assert!(matches(".example.com", "a.b.example.com."));
    assert!(matches(".www", "a.www.example.com."));
    assert!(matches(".@", "mail.example.com."));
    assert!(!matches(".example.com", "example.org."));
}

#[test]
fn everything() {
    assert!(matches(".", "example.com."));
    assert!(matches(".", "anything.else."));
}

#[test]
fn needs_an_origin_for_at() {
    assert!(matches!(Query::parse("@", None), Err(Error::Query(_))));
    assert!(Query::parse("www", None).unwrap().matches(&name("www.")));
}

#[test]
fn query_rejects_bad_names() {
    assert!(Query::parse("a..b", None).is_err());
    assert!(Query::parse("", None).is_err());
}

#[test]
fn escaped_trailing_dot_is_relative() {
    assert!(matches(r"a\.", r"a\..example.com."));
    assert!(Query::parse(r"a\.", None).unwrap().matches(&name(r"a\..")));
}
