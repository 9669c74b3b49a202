use zoneq::name::Name;

fn name(raw: &str) -> Name {
    Name::parse(raw, None).unwrap()
}

#[test]
fn at_is_the_origin() {
    let origin = name("example.com.");
    assert_eq!(Name::parse("@", Some(&origin)).unwrap(), origin);
    assert!(Name::parse("@", None).is_err());
}

#[test]
fn relative_names_take_the_origin() {
    let origin = name("example.com.");
    assert_eq!(
        Name::parse("www", Some(&origin)).unwrap().as_str(),
        "www.example.com."
    );
    assert_eq!(
        Name::parse("www", Some(&Name::root())).unwrap().as_str(),
        "www."
    );
    assert!(Name::parse("www", None).is_err());
}

#[test]
fn absolute_names_ignore_the_origin() {
    let origin = name("example.com.");
    assert_eq!(
        Name::parse("ns.other.", Some(&origin)).unwrap().as_str(),
        "ns.other."
    );
    assert_eq!(Name::parse(".", Some(&origin)).unwrap(), Name::root());
}

#[test]
fn escaped_dots_stay_in_the_label() {
    let origin = name("isi.edu.");
    let n = Name::parse(r"Action\.domains", Some(&origin)).unwrap();
    assert_eq!(n.labels(), [r"Action\.domains", "isi", "edu"]);
    // An escaped trailing dot isn't absolute.
    assert_eq!(
        Name::parse(r"a\.", Some(&origin)).unwrap().as_str(),
        r"a\..isi.edu."
    );
}

#[test]
fn rejects_empty_labels() {
    assert!(Name::parse("a..b.", None).is_err());
    assert!(Name::parse("..", None).is_err());
    assert!(Name::parse(r"a\..b.", None).is_ok());
}

#[test]
fn rejects_a_dangling_escape() {
    assert!(Name::parse(r"a\", Some(&Name::root())).is_err());
    assert!(Name::parse(r"a\\\", Some(&Name::root())).is_err());
    assert_eq!(
        Name::parse(r"a\\", Some(&Name::root())).unwrap().as_str(),
        r"a\\."
    );
}

#[test]
fn equality_ignores_case() {
    assert_eq!(name("WWW.Example.COM."), name("www.example.com."));
}

#[test]
fn escapes_are_the_octets_they_stand_for() {
    assert_eq!(name(r"\119ww.example."), name("WWW.example."));
    assert_eq!(name(r"\w\W\087.example."), name("www.example."));
    assert_eq!(name(r"m\046x.example."), name(r"m\.x.example."));
    assert_ne!(name(r"m\046x.example."), name("m.x.example."));
    assert!(name(r"a.\101xample.").is_at_or_below(&name("example.")));
    assert!(!name(r"a\046example.").is_at_or_below(&name("example.")));
    // Past 255 it's the digits themselves.
    assert_eq!(name(r"\256.example."), name("256.example."));

    assert_eq!(name(r"\119ww.example.").key(), b"www.example.");
    assert_eq!(name(r"M\046\\x.").key(), br"m\.\\x.");
}

#[test]
fn subtree_membership() {
    let zone = name("example.com.");
    assert!(name("example.com.").is_at_or_below(&zone));
    assert!(name("a.b.EXAMPLE.com.").is_at_or_below(&zone));
    assert!(!name("badexample.com.").is_at_or_below(&zone));
    assert!(!name("com.").is_at_or_below(&zone));
    assert!(name("com.").is_at_or_below(&Name::root()));
    assert!(!name(r"a\.example.com.").is_at_or_below(&zone));
    assert!(name(r"a\\.example.com.").is_at_or_below(&zone));
    assert!(!name("example.com.").is_at_or_below(&name("a.example.com.")));
}

#[test]
fn parents() {
    assert_eq!(
        name("www.example.com.").parent(),
        Some(name("example.com."))
    );
    assert_eq!(name("com.").parent(), Some(Name::root()));
    assert_eq!(Name::root().parent(), None);
    assert_eq!(name(r"a\.b.example.").parent(), Some(name("example.")));
    assert_eq!(name(r"a\\.b.").parent(), Some(name("b.")));
}

#[test]
fn wildcards() {
    assert_eq!(name("example.com.").wildcard().as_str(), "*.example.com.");
    assert_eq!(Name::root().wildcard().as_str(), "*.");
    assert_eq!(
        name("*.example.com.").wildcard().labels(),
        ["*", "*", "example", "com"]
    );
}
