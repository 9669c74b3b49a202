use zoneq::lexer::{tokenise, Line, Token};

fn texts(line: &Line) -> Vec<&str> {
    line.tokens.iter().map(|t| t.text.as_str()).collect()
}

#[test]
fn splits_on_whitespace_and_drops_comments() {
    let lines = tokenise("www  IN\tA 192.0.2.1 ; a comment\n\n; only a comment\n").unwrap();
    assert_eq!(lines.len(), 1);
    assert_eq!(texts(&lines[0]), ["www", "IN", "A", "192.0.2.1"]);
    assert!(!lines[0].leading_blank);
}

#[test]
fn marks_leading_blank() {
    let lines = tokenise("  ; comment\n\tA 192.0.2.1\n").unwrap();
    assert_eq!(lines.len(), 1);
    assert!(lines[0].leading_blank);
    assert_eq!(lines[0].number, 2);
}

#[test]
fn parens_span_lines() {
    let input = "@ SOA ns host (\n 1 ; serial\n 2 3 4\n 5 )\nwww A 192.0.2.1\n";
    let lines = tokenise(input).unwrap();
    assert_eq!(lines.len(), 2);
    assert_eq!(
        texts(&lines[0]),
        ["@", "SOA", "ns", "host", "1", "2", "3", "4", "5"]
    );
    assert_eq!(lines[1].number, 5);
}

#[test]
fn semicolon_glued_to_token_starts_a_comment() {
    let lines = tokenise("$INCLUDE redhat.zone; this is a comment").unwrap();
    assert_eq!(texts(&lines[0]), ["$INCLUDE", "redhat.zone"]);
}

#[test]
fn quoted_strings_keep_spaces_and_semicolons() {
    let lines = tokenise(r#"@ TXT "v=spf1 ~all; x" """#).unwrap();
    assert_eq!(
        lines[0].tokens[2],
        Token {
            text: "v=spf1 ~all; x".into(),
            quoted: true
        }
    );
    assert_eq!(lines[0].tokens[3].text, "");
}

#[test]
fn escapes_are_kept_raw() {
    let lines = tokenise(r#"@ SOA venera Action\.domains "say \"hi\"" a\;b"#).unwrap();
    assert_eq!(
        texts(&lines[0]),
        [
            "@",
            "SOA",
            "venera",
            r"Action\.domains",
            r#"say \"hi\""#,
            r"a\;b"
        ]
    );
}

#[test]
fn reports_unbalanced_parens() {
    assert_eq!(tokenise("a (\nb\n").unwrap_err().line, 1);
    assert_eq!(tokenise("a\nb )\n").unwrap_err().line, 2);
}

#[test]
fn reports_unterminated_quote_and_trailing_backslash() {
    assert!(tokenise("a \"b\n").is_err());
    assert!(tokenise("a b\\").is_err());
    assert_eq!(tokenise("a\r\nb c\\\r\n").unwrap_err().line, 2);
}

#[test]
fn skips_a_byte_order_mark() {
    let lines = tokenise("\u{feff}$ORIGIN example.com.\n").unwrap();
    assert_eq!(texts(&lines[0]), ["$ORIGIN", "example.com."]);
}

#[test]
fn error_messages_name_the_fault() {
    assert_eq!(tokenise("a )").unwrap_err().message, "unexpected )");
    assert_eq!(tokenise("a (").unwrap_err().message, "unclosed (");
    assert_eq!(tokenise("\"a").unwrap_err().message, "unterminated quoted string");
    assert_eq!(tokenise("a\\").unwrap_err().message, "trailing backslash");
}

#[test]
fn multibyte_text_survives() {
    let lines = tokenise("caf\u{e9} TXT \"na\u{ef}ve\" \\\u{e9}x\n").unwrap();
    assert_eq!(texts(&lines[0]), ["caf\u{e9}", "TXT", "na\u{ef}ve", "\\\u{e9}x"]);
}
