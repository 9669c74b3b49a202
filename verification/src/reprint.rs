//! Printed records read back as themselves.
//!
//! [`crate::format_record`] writes a record as one line of zone file text
//! with everything spelled out: the absolute owner, TTL, class and type,
//! then the rdata. Reading such lines back gives the same records, as long
//! as each field is text the lexer reads as one token
//! ([`lemma_printed_records_read_back`]); every record a parse makes is
//! such a record but for its owner and name fields, which can hold any
//! text a quoted string or `$ORIGIN` gave them
//! ([`lemma_parsed_zone_reads_back`]).

use vstd::prelude::*;
use crate::lexer::{
    LexState, LexMode, LexFault, TokenV, LineV, lex_step, lex_prefix, lex_init, flush_token,
    tokenise_spec, strip_bom, starts_with_bom, start_line, flush_line,
};
use crate::{join_spaced, record_line};
use crate::text::{decimal_digits, decimal, all_digits, is_alpha, is_digit, lemma_ascii_str, upper_seq};
use crate::ttl::{MAX_TTL, ttl_value};
use crate::zone::{
    class_value, type_like, name_fields_of, record_spec, rdata_spec, rdata_all, scan_ttl_class, StateV,
    ParserV, FrameV, StepV, RunV, parser_step, run_parser, parser_start, parse_str_spec, is_directive,
    lemma_step_makes_progress, work_left,
};
use crate::name::{
    ends_with_unescaped_dot, has_empty_label, is_name, lemma_absolute_parses_as_itself, lemma_parse_gives_absolute,
    root_bytes,
};
use vstd::string::*;
use crate::zone::RecordV;

verus! {

/// Lexing that went through, ending in state `s`.
pub open spec fn lexed(s: LexState) -> Result<LexState, (nat, LexFault)> {
    Ok(s)
}

/// The lexer after reading `t`, starting from `st`.
pub open spec fn lex_run(st: LexState, t: Seq<u8>) -> Result<LexState, (nat, LexFault)>
    decreases t.len(),
{
    if t.len() == 0 {
        Ok(st)
    } else {
        match lex_step(st, t[0]) {
            Ok(s) => lex_run(s, t.skip(1)),
            Err(e) => Err(e),
        }
    }
}

proof fn lemma_lex_run_push(st: LexState, t: Seq<u8>, c: u8)
    ensures
        lex_run(st, t.push(c)) == match lex_run(st, t) {
            Ok(s) => lex_step(s, c),
            Err(e) => Err(e),
        },
    decreases t.len(),
{
    let tc = t.push(c);
    if t.len() == 0 {
        assert(tc[0] == c);
        assert(tc.skip(1) =~= Seq::<u8>::empty());
        match lex_step(st, c) {
            Ok(s) => {
                assert(lex_run(s, Seq::<u8>::empty()) == lexed(s));
            },
            Err(_) => {},
        }
    } else {
        assert(tc[0] == t[0]);
        assert(tc.skip(1) =~= t.skip(1).push(c));
        match lex_step(st, t[0]) {
            Ok(s) => lemma_lex_run_push(s, t.skip(1), c),
            Err(_) => {},
        }
    }
}

pub proof fn lemma_lex_prefix_run(s: Seq<u8>, m: nat)
    requires
        m <= s.len(),
    ensures
        lex_prefix(s, m) == lex_run(lex_init(), s.take(m as int)),
    decreases m,
{
    if m == 0 {
        assert(s.take(0) =~= Seq::<u8>::empty());
    } else {
        lemma_lex_prefix_run(s, (m - 1) as nat);
        assert(s.take(m as int) =~= s.take(m - 1).push(s[m - 1]));
        lemma_lex_run_push(lex_init(), s.take(m - 1), s[m - 1]);
    }
}

pub proof fn lemma_lex_run_concat(st: LexState, a: Seq<u8>, b: Seq<u8>)
    ensures
        lex_run(st, a + b) == match lex_run(st, a) {
            Ok(s) => lex_run(s, b),
            Err(e) => Err(e),
        },
    decreases a.len(),
{
    if a.len() == 0 {
        assert(a + b =~= b);
    } else {
        assert((a + b)[0] == a[0]);
        assert((a + b).skip(1) =~= a.skip(1) + b);
        match lex_step(st, a[0]) {
            Ok(s) => lemma_lex_run_concat(s, a.skip(1), b),
            Err(_) => {},
        }
    }
}

/// A byte the lexer treats specially outside quotes.
pub open spec fn is_special(c: u8) -> bool {
    c == 59u8 || c == 40u8 || c == 41u8 || c == 32u8 || c == 9u8 || c == 13u8 || c == 10u8 || c
        == 34u8 || c == 92u8
}

/// Text the lexer reads back as one unquoted token: no whitespace,
/// comment, parenthesis or quote that isn't escaped, and every backslash
/// escaping a byte on the same line.
pub open spec fn plain(t: Seq<u8>) -> bool
    decreases t.len(),
{
    if t.len() == 0 {
        true
    } else if t[0] == 92u8 {
        t.len() >= 2 && t[1] != 10u8 && t[1] != 13u8 && plain(t.skip(2))
    } else {
        !is_special(t[0]) && plain(t.skip(1))
    }
}

/// Text the lexer reads back as the inside of a quoted string.
pub open spec fn quoted_body(q: Seq<u8>) -> bool
    decreases q.len(),
{
    if q.len() == 0 {
        true
    } else if q[0] == 92u8 {
        q.len() >= 2 && q[1] != 10u8 && quoted_body(q.skip(2))
    } else {
        q[0] != 34u8 && q[0] != 10u8 && quoted_body(q.skip(1))
    }
}

/// A quoted string as stored: quotes around a quoted body.
pub open spec fn quoted_form(f: Seq<u8>) -> bool {
    f.len() >= 2 && f[0] == 34u8 && f.last() == 34u8 && quoted_body(f.subrange(1, f.len() - 1))
}

/// A field that reads back as one token, quoted or not.
pub open spec fn printable_field(f: Seq<u8>) -> bool {
    (f.len() > 0 && plain(f)) || quoted_form(f)
}

/// The token a printable field reads back as.
pub open spec fn field_token(f: Seq<u8>) -> TokenV {
    if quoted_form(f) {
        TokenV { text: f.subrange(1, f.len() - 1), quoted: true }
    } else {
        TokenV { text: f, quoted: false }
    }
}

/// Between tokens, in the middle of an entry, with no token started.
pub open spec fn clean(st: LexState) -> bool {
    st.mode == LexMode::Normal && !st.at_line_start && !st.in_token && st.buf.len() == 0
}

proof fn lemma_lex_plain(st: LexState, t: Seq<u8>)
    requires
        st.mode == LexMode::Normal,
        !st.at_line_start,
        plain(t),
    ensures
        lex_run(st, t) == lexed(
            if t.len() == 0 {
                st
            } else {
                LexState { in_token: true, buf: st.buf + t, ..st }
            },
        ),
    decreases t.len(),
{
    if t.len() > 0 {
        if t[0] == 92u8 {
            let s1 = LexState { mode: LexMode::Escape, ..st };
            assert(lex_step(st, 92u8) == lexed(s1));
            let s2 = LexState {
                in_token: true,
                buf: st.buf.push(92u8).push(t[1]),
                mode: LexMode::Normal,
                ..st
            };
            assert(lex_step(s1, t[1]) == lexed(s2));
            assert(t.skip(1)[0] == t[1]);
            assert(t.skip(1).skip(1) =~= t.skip(2));
            assert(lex_run(s1, t.skip(1)) == lex_run(s2, t.skip(2)));
            lemma_lex_plain(s2, t.skip(2));
            assert(s2.buf + t.skip(2) =~= st.buf + t);
        } else {
            let s1 = LexState { in_token: true, buf: st.buf.push(t[0]), ..st };
            assert(lex_step(st, t[0]) == lexed(s1));
            lemma_lex_plain(s1, t.skip(1));
            assert(s1.buf + t.skip(1) =~= st.buf + t);
        }
    }
}

proof fn lemma_lex_quoted_body(st: LexState, q: Seq<u8>)
    requires
        st.mode == LexMode::Quoted,
        !st.at_line_start,
        quoted_body(q),
    ensures
        lex_run(st, q) == lexed(LexState { buf: st.buf + q, ..st }),
    decreases q.len(),
{
    if q.len() == 0 {
        assert(st.buf + q =~= st.buf);
    } else {
        if q[0] == 92u8 {
            let s1 = LexState { mode: LexMode::QuotedEscape, ..st };
            assert(lex_step(st, 92u8) == lexed(s1));
            let s2 = LexState { buf: st.buf.push(92u8).push(q[1]), mode: LexMode::Quoted, ..st };
            assert(lex_step(s1, q[1]) == lexed(s2));
            assert(q.skip(1)[0] == q[1]);
            assert(q.skip(1).skip(1) =~= q.skip(2));
            assert(lex_run(s1, q.skip(1)) == lex_run(s2, q.skip(2)));
            lemma_lex_quoted_body(s2, q.skip(2));
            assert(s2.buf + q.skip(2) =~= st.buf + q);
        } else {
            let s1 = LexState { buf: st.buf.push(q[0]), ..st };
            assert(lex_step(st, q[0]) == lexed(s1));
            lemma_lex_quoted_body(s1, q.skip(1));
            assert(s1.buf + q.skip(1) =~= st.buf + q);
        }
    }
}

/// Reading one printable field from between tokens leaves its token to be
/// ended by whatever follows.
proof fn lemma_lex_field(st: LexState, f: Seq<u8>)
    requires
        clean(st),
        printable_field(f),
    ensures
        lex_run(st, f) matches Ok(s) && s.mode == LexMode::Normal && !s.at_line_start
            && flush_token(s) == (LexState { tokens: st.tokens.push(field_token(f)), ..st }),
{
    if quoted_form(f) {
        let q = f.subrange(1, f.len() - 1);
        assert(f =~= seq![34u8] + q + seq![34u8]);
        let s1 = LexState { in_token: true, mode: LexMode::Quoted, ..st };
        assert(lex_step(st, 34u8) == lexed(s1));
        lemma_lex_quoted_body(s1, q);
        let s2 = LexState { buf: s1.buf + q, ..s1 };
        assert(s2.buf =~= q);
        let s3 = LexState {
            tokens: st.tokens.push(TokenV { text: q, quoted: true }),
            buf: Seq::empty(),
            in_token: false,
            mode: LexMode::Normal,
            ..s2
        };
        assert(lex_step(s2, 34u8) == lexed(s3));
        lemma_lex_run_concat(st, seq![34u8] + q, seq![34u8]);
        lemma_lex_run_concat(st, seq![34u8], q);
        assert(seq![34u8].skip(1) =~= Seq::<u8>::empty());
        assert(seq![34u8][0] == 34u8);
        assert(lex_run(s1, Seq::<u8>::empty()) == lexed(s1));
        assert(lex_run(s3, Seq::<u8>::empty()) == lexed(s3));
        assert(lex_run(st, seq![34u8]) == lexed(s1));
        assert(lex_run(s2, seq![34u8]) == lexed(s3));
        assert(st.buf =~= Seq::<u8>::empty());
        assert(field_token(f) == TokenV { text: q, quoted: true });
        assert(s3 == (LexState { tokens: st.tokens.push(field_token(f)), ..st }));
        assert(lex_run(st, seq![34u8] + q) == lexed(s2));
        assert(lex_run(st, f) == lexed(s3));
    } else {
        lemma_lex_plain(st, f);
        assert(st.buf + f =~= f);
        assert(st.buf =~= Seq::<u8>::empty());
        assert(!quoted_form(f));
        assert(field_token(f) == TokenV { text: f, quoted: false });
    }
}

/// The tokens printable fields read back as.
pub open spec fn field_tokens(fs: Seq<Seq<u8>>) -> Seq<TokenV> {
    fs.map_values(|f: Seq<u8>| field_token(f))
}

proof fn lemma_lex_separator(s: LexState, c: u8)
    requires
        s.mode == LexMode::Normal,
        !s.at_line_start,
        c == 32u8 || c == 9u8,
    ensures
        lex_step(s, c) == lexed(flush_token(s)),
{
}

/// Reading a field and a blank after it ends the field's token.
proof fn lemma_lex_field_then_blank(st: LexState, f: Seq<u8>, c: u8)
    requires
        clean(st),
        printable_field(f),
        c == 32u8 || c == 9u8,
    ensures
        lex_run(st, f.push(c)) == lexed(LexState { tokens: st.tokens.push(field_token(f)), ..st }),
{
    lemma_lex_field(st, f);
    let s = lex_run(st, f)->Ok_0;
    lemma_lex_run_push(st, f, c);
    lemma_lex_separator(s, c);
}

/// Fields each followed by a tab.
pub open spec fn tabbed(fs: Seq<Seq<u8>>) -> Seq<u8>
    decreases fs.len(),
{
    if fs.len() == 0 {
        Seq::empty()
    } else {
        tabbed(fs.drop_last()) + fs.last().push(9u8)
    }
}

proof fn lemma_lex_tabbed(st: LexState, fs: Seq<Seq<u8>>)
    requires
        clean(st),
        forall|i: int| 0 <= i < fs.len() ==> printable_field(#[trigger] fs[i]),
    ensures
        lex_run(st, tabbed(fs)) == lexed(LexState { tokens: st.tokens + field_tokens(fs), ..st }),
    decreases fs.len(),
{
    if fs.len() == 0 {
        assert(st.tokens + field_tokens(fs) =~= st.tokens);
    } else {
        let init = fs.drop_last();
        assert forall|i: int| 0 <= i < init.len() implies printable_field(#[trigger] init[i]) by {
            assert(init[i] == fs[i]);
        }
        lemma_lex_tabbed(st, init);
        let x = LexState { tokens: st.tokens + field_tokens(init), ..st };
        assert(printable_field(fs[fs.len() - 1]));
        lemma_lex_field_then_blank(x, fs.last(), 9u8);
        lemma_lex_run_concat(st, tabbed(init), fs.last().push(9u8));
        assert(x.tokens.push(field_token(fs.last())) =~= st.tokens + field_tokens(fs));
    }
}

/// Reading fields joined by single spaces leaves the last one's token to
/// be ended by whatever follows.
proof fn lemma_lex_spaced(st: LexState, fs: Seq<Seq<u8>>)
    requires
        clean(st),
        fs.len() >= 1,
        forall|i: int| 0 <= i < fs.len() ==> printable_field(#[trigger] fs[i]),
    ensures
        lex_run(st, join_spaced(fs)) matches Ok(s) && s.mode == LexMode::Normal && !s.at_line_start
            && flush_token(s) == (LexState { tokens: st.tokens + field_tokens(fs), ..st }),
    decreases fs.len(),
{
    if fs.len() == 1 {
        assert(printable_field(fs[0]));
        lemma_lex_field(st, fs[0]);
        assert(st.tokens.push(field_token(fs[0])) =~= st.tokens + field_tokens(fs));
    } else {
        let init = fs.drop_last();
        assert forall|i: int| 0 <= i < init.len() implies printable_field(#[trigger] init[i]) by {
            assert(init[i] == fs[i]);
        }
        lemma_lex_spaced(st, init);
        let s1 = lex_run(st, join_spaced(init))->Ok_0;
        let x = LexState { tokens: st.tokens + field_tokens(init), ..st };
        lemma_lex_run_push(st, join_spaced(init), 32u8);
        lemma_lex_separator(s1, 32u8);
        assert(lex_run(st, join_spaced(init).push(32u8)) == lexed(x));
        assert(printable_field(fs[fs.len() - 1]));
        lemma_lex_field(x, fs.last());
        lemma_lex_run_concat(st, join_spaced(init).push(32u8), fs.last());
        assert(join_spaced(fs) =~= join_spaced(init).push(32u8) + fs.last());
        assert(x.tokens.push(field_token(fs.last())) =~= st.tokens + field_tokens(fs));
    }
}

/// Text with no byte the lexer treats specially is plain.
pub proof fn lemma_plain_when_ordinary(t: Seq<u8>)
    requires
        forall|i: int| 0 <= i < t.len() ==> !is_special(#[trigger] t[i]),
    ensures
        plain(t),
    decreases t.len(),
{
    if t.len() > 0 {
        assert(!is_special(t[0]));
        assert forall|i: int| 0 <= i < t.skip(1).len() implies !is_special(#[trigger] t.skip(1)[i]) by {
            assert(t.skip(1)[i] == t[i + 1]);
        }
        lemma_plain_when_ordinary(t.skip(1));
    }
}

pub proof fn lemma_digits_plain(n: nat)
    ensures
        decimal_digits(n).len() > 0,
        plain(decimal_digits(n)),
    decreases n,
{
    let d = decimal_digits(n);
    if n >= 10 {
        lemma_digits_plain(n / 10);
    }
    assert forall|i: int| 0 <= i < d.len() implies !is_special(#[trigger] d[i]) by {
        lemma_digits_are_digits(n);
    }
    lemma_plain_when_ordinary(d);
}

proof fn lemma_digits_are_digits(n: nat)
    ensures
        forall|i: int| 0 <= i < decimal_digits(n).len() ==> 48 <= #[trigger] decimal_digits(n)[i] <= 57,
    decreases n,
{
    if n >= 10 {
        lemma_digits_are_digits(n / 10);
        let d = decimal_digits(n);
        assert forall|i: int| 0 <= i < d.len() implies 48 <= #[trigger] d[i] <= 57 by {
            if i < d.len() - 1 {
                assert(d[i] == decimal_digits(n / 10)[i]);
            }
        }
    }
}

/// At the start of a physical line, outside parentheses, nothing read yet.
pub open spec fn line_start(st: LexState) -> bool {
    &&& st.mode == LexMode::Normal
    &&& st.at_line_start
    &&& st.depth == 0
    &&& !st.in_token
    &&& st.buf.len() == 0
    &&& st.tokens.len() == 0
}

/// A line that starts with something other than a blank starts an entry
/// with an owner.
proof fn lemma_line_start(st: LexState, t: Seq<u8>)
    requires
        st.mode == LexMode::Normal,
        st.at_line_start,
        st.depth == 0,
        t.len() > 0,
        t[0] != 32u8 && t[0] != 9u8,
    ensures
        lex_run(st, t) == lex_run(
            LexState { at_line_start: false, entry_line: st.line, leading_blank: false, ..st },
            t,
        ),
{
}

/// The tokens a printed record reads back as.
pub open spec fn record_tokens(r: RecordV) -> Seq<TokenV> {
    field_tokens(seq![r.name, decimal_digits(r.ttl as nat), r.class, r.rtype] + r.rdata)
}

/// A record whose printed line reads back as its fields, one token each.
pub open spec fn printable_text(r: RecordV) -> bool {
    &&& r.name.len() > 0
    &&& plain(r.name)
    &&& r.class.len() > 0
    &&& plain(r.class)
    &&& r.rtype.len() > 0
    &&& plain(r.rtype)
    &&& r.rdata.len() >= 1
    &&& forall|i: int| 0 <= i < r.rdata.len() ==> printable_field(#[trigger] r.rdata[i])
}

proof fn lemma_plain_first(t: Seq<u8>)
    requires
        t.len() > 0,
        plain(t),
    ensures
        t[0] != 32u8 && t[0] != 9u8,
{
}

proof fn lemma_lex_record_line(st: LexState, r: RecordV)
    requires
        line_start(st),
        printable_text(r),
    ensures
        lex_run(st, record_line(r)) matches Ok(s) && s.mode == LexMode::Normal && !s.at_line_start
            && s.depth == 0 && flush_token(s) == (LexState {
            tokens: record_tokens(r),
            at_line_start: false,
            entry_line: st.line,
            leading_blank: false,
            ..st
        }),
{
    let digits = decimal_digits(r.ttl as nat);
    lemma_digits_plain(r.ttl as nat);
    let units = seq![r.name, digits, r.class, r.rtype];
    let line = record_line(r);
    reveal_with_fuel(tabbed, 5);
    assert(line =~= tabbed(units) + join_spaced(r.rdata));
    lemma_plain_first(r.name);
    assert(line[0] == r.name[0]);
    lemma_line_start(st, line);
    let st1 = LexState { at_line_start: false, entry_line: st.line, leading_blank: false, ..st };
    assert forall|i: int| 0 <= i < units.len() implies printable_field(#[trigger] units[i]) by {
    }
    lemma_lex_tabbed(st1, units);
    let x = LexState { tokens: st1.tokens + field_tokens(units), ..st1 };
    lemma_lex_spaced(x, r.rdata);
    lemma_lex_run_concat(st1, tabbed(units), join_spaced(r.rdata));
    assert(st.tokens =~= Seq::<TokenV>::empty());
    assert(x.tokens + field_tokens(r.rdata) =~= record_tokens(r));
}

/// Records printed one per line, the lines joined by newlines.
pub open spec fn printed(rs: Seq<RecordV>) -> Seq<u8>
    decreases rs.len(),
{
    if rs.len() == 0 {
        Seq::empty()
    } else if rs.len() == 1 {
        record_line(rs[0])
    } else {
        printed(rs.drop_last()) + seq![10u8] + record_line(rs.last())
    }
}

/// The entries that printed records read back as.
pub open spec fn printed_lines(rs: Seq<RecordV>) -> Seq<LineV> {
    Seq::new(
        rs.len(),
        |i: int| LineV { number: (i + 1) as nat, leading_blank: false, tokens: record_tokens(rs[i]) },
    )
}

proof fn lemma_lex_printed(rs: Seq<RecordV>)
    requires
        rs.len() >= 1,
        forall|i: int| 0 <= i < rs.len() ==> printable_text(#[trigger] rs[i]),
    ensures
        lex_run(lex_init(), printed(rs)) matches Ok(s) && s.mode == LexMode::Normal && !s.at_line_start
            && s.depth == 0 && flush_token(s) == (LexState {
            lines: printed_lines(rs.drop_last()),
            tokens: record_tokens(rs.last()),
            at_line_start: false,
            entry_line: rs.len(),
            leading_blank: false,
            line: rs.len(),
            ..lex_init()
        }),
    decreases rs.len(),
{
    if rs.len() == 1 {
        assert(printable_text(rs[0]));
        lemma_lex_record_line(lex_init(), rs[0]);
        assert(printed_lines(rs.drop_last()) =~= Seq::<LineV>::empty());
    } else {
        let init = rs.drop_last();
        assert forall|i: int| 0 <= i < init.len() implies printable_text(#[trigger] init[i]) by {
            assert(init[i] == rs[i]);
        }
        lemma_lex_printed(init);
        let s1 = lex_run(lex_init(), printed(init))->Ok_0;
        let y = flush_token(s1);
        assert(record_tokens(init.last()).len() > 0);
        let l = LexState {
            lines: printed_lines(init),
            tokens: Seq::empty(),
            line: init.len() + 1,
            at_line_start: true,
            ..y
        };
        assert(printed_lines(init) =~= printed_lines(init.drop_last()).push(
            LineV { number: init.len(), leading_blank: false, tokens: record_tokens(init.last()) },
        ));
        assert(lex_step(s1, 10u8) == lexed(l));
        lemma_lex_run_push(lex_init(), printed(init), 10u8);
        assert(printable_text(rs[rs.len() - 1]));
        lemma_lex_record_line(l, rs.last());
        lemma_lex_run_concat(lex_init(), printed(init).push(10u8), record_line(rs.last()));
        assert(printed(rs) =~= printed(init).push(10u8) + record_line(rs.last()));
    }
}

proof fn lemma_printed_first(rs: Seq<RecordV>)
    requires
        rs.len() >= 1,
    ensures
        printed(rs).len() > rs[0].name.len(),
        forall|i: int| 0 <= i < rs[0].name.len() ==> printed(rs)[i] == rs[0].name[i],
        printed(rs)[rs[0].name.len() as int] == 9u8,
    decreases rs.len(),
{
    if rs.len() == 1 {
        let r = rs[0];
        assert(record_line(r)[r.name.len() as int] == 9u8);
        assert forall|i: int| 0 <= i < r.name.len() implies record_line(r)[i] == r.name[i] by {}
    } else {
        lemma_printed_first(rs.drop_last());
        let a = printed(rs.drop_last());
        assert forall|i: int| 0 <= i < a.len() implies printed(rs)[i] == a[i] by {}
    }
}

/// Printed records split into one entry each, with their fields as tokens.
pub proof fn lemma_tokenise_printed(rs: Seq<RecordV>)
    requires
        forall|i: int| 0 <= i < rs.len() ==> printable_text(#[trigger] rs[i]),
        rs.len() > 0 ==> !starts_with_bom(rs[0].name),
    ensures
        tokenise_spec(printed(rs)) == Ok::<Seq<LineV>, (nat, LexFault)>(printed_lines(rs)),
{
    let p = printed(rs);
    if rs.len() == 0 {
        assert(printed_lines(rs) =~= Seq::<LineV>::empty());
        assert(strip_bom(p) == p);
    } else {
        assert(printable_text(rs[0]));
        lemma_printed_first(rs);
        assert(!starts_with_bom(p)) by {
            let n = rs[0].name;
            if n.len() >= 3 {
                assert(p[0] == n[0] && p[1] == n[1] && p[2] == n[2]);
            }
        }
        assert(strip_bom(p) == p);
        lemma_lex_prefix_run(p, p.len());
        assert(p.take(p.len() as int) =~= p);
        lemma_lex_printed(rs);
        assert(record_tokens(rs.last()).len() > 0);
        assert(printed_lines(rs) =~= printed_lines(rs.drop_last()).push(
            LineV { number: rs.len(), leading_blank: false, tokens: record_tokens(rs.last()) },
        ));
    }
}

proof fn lemma_decimal_of_digits(n: nat)
    ensures
        decimal(decimal_digits(n)) == n,
        all_digits(decimal_digits(n)),
    decreases n,
{
    lemma_digits_are_digits(n);
    let d = decimal_digits(n);
    if n >= 10 {
        lemma_decimal_of_digits(n / 10);
        assert(d.drop_last() =~= decimal_digits(n / 10));
        assert(d.last() == (48 + n % 10) as u8);
        assert(n == (n / 10) * 10 + n % 10);
        assert(decimal(d) == decimal(d.drop_last()) * 10 + (d.last() - 0x30) as nat);
    } else {
        assert(d.drop_last() =~= Seq::<u8>::empty());
        assert(decimal(Seq::<u8>::empty()) == 0);
        assert(decimal(d) == decimal(d.drop_last()) * 10 + (d.last() - 0x30) as nat);
    }
}

/// A TTL written out in decimal reads back as itself.
pub proof fn lemma_ttl_round_trip(t: u32)
    requires
        t <= MAX_TTL,
    ensures
        ttl_value(decimal_digits(t as nat)) == Some(t),
{
    lemma_decimal_of_digits(t as nat);
    lemma_digits_plain(t as nat);
}

/// A class as a parse stores it is plain text.
proof fn lemma_class_plain(c: Seq<u8>)
    requires
        class_value(c) == Some(c),
    ensures
        c.len() > 0,
        plain(c),
{
    reveal_strlit("IN");
    reveal_strlit("CH");
    reveal_strlit("HS");
    reveal_strlit("CS");
    reveal_strlit("CLASS");
    lemma_ascii_str("IN");
    lemma_ascii_str("CH");
    lemma_ascii_str("HS");
    lemma_ascii_str("CS");
    lemma_ascii_str("CLASS");
    let g = "CLASS".spec_bytes();
    assert forall|i: int| 0 <= i < c.len() implies !is_special(#[trigger] c[i]) by {
        if c == "IN".spec_bytes() || c == "CH".spec_bytes() || c == "HS".spec_bytes() || c
            == "CS".spec_bytes() {
        } else if i < g.len() {
            assert(c.take(g.len() as int)[i] == c[i]);
        } else {
            assert(c.skip(g.len() as int)[i - g.len()] == c[i]);
        }
    }
    lemma_plain_when_ordinary(c);
}

/// A type as a parse stores it is plain text.
proof fn lemma_type_plain(t: Seq<u8>)
    requires
        type_like(t),
    ensures
        plain(t),
{
    assert forall|i: int| 0 <= i < t.len() implies !is_special(#[trigger] t[i]) by {
        assert(is_alpha(t[i]) || is_digit(t[i]) || t[i] == 45u8);
    }
    lemma_plain_when_ordinary(t);
}

/// The record's rdata is RFC 3597 generic data, as a parse reads it.
pub open spec fn generic_rdata(r: RecordV) -> bool {
    field_token(r.rdata[0]).text == "\\#".spec_bytes()
}

/// A record that reads back as itself once printed: every field spells
/// plain text or a quoted string, names are absolute, and the TTL, class
/// and type are as a parse stores them. The owner doesn't start with `$`,
/// which a parse would take for a directive.
pub open spec fn reads_back(r: RecordV) -> bool {
    &&& r.name.len() > 0
    &&& plain(r.name)
    &&& ends_with_unescaped_dot(r.name)
    &&& !has_empty_label(r.name)
    &&& r.name[0] != 36u8
    &&& r.ttl <= MAX_TTL
    &&& class_value(r.class) == Some(r.class)
    &&& type_like(r.rtype)
    &&& upper_seq(r.rtype) == r.rtype
    &&& r.rdata.len() >= 1
    &&& forall|i: int| 0 <= i < r.rdata.len() ==> printable_field(#[trigger] r.rdata[i])
    &&& !generic_rdata(r) ==> forall|k: int|
        0 <= k < r.rdata.len() && name_fields_of(r.rtype).contains(k) && !quoted_form(
            #[trigger] r.rdata[k],
        ) ==> ends_with_unescaped_dot(r.rdata[k]) && !has_empty_label(r.rdata[k])
    &&& (r.rtype == "SOA".spec_bytes() && !generic_rdata(r)) ==> r.rdata.len() == 7 && ttl_value(
        field_token(r.rdata[6]).text,
    ) is Some
}

proof fn lemma_reads_back_text(r: RecordV)
    requires
        reads_back(r),
    ensures
        printable_text(r),
{
    lemma_class_plain(r.class);
    lemma_type_plain(r.rtype);
}

proof fn lemma_plain_not_quoted(f: Seq<u8>)
    requires
        f.len() > 0,
        plain(f),
    ensures
        !quoted_form(f),
        field_token(f) == (TokenV { text: f, quoted: false }),
{
}

/// The printed line of a record that reads back is that record again, and
/// it takes nothing from the state it is read in.
proof fn lemma_record_reads_back(r: RecordV, number: nat, st: StateV)
    requires
        reads_back(r),
    ensures
        record_spec(LineV { number, leading_blank: false, tokens: record_tokens(r) }, st) matches Some(
            (x, _),
        ) && x == r,
{
    let line = LineV { number, leading_blank: false, tokens: record_tokens(r) };
    let digits = decimal_digits(r.ttl as nat);
    let units = seq![r.name, digits, r.class, r.rtype];
    let ts = record_tokens(r);
    lemma_reads_back_text(r);
    lemma_digits_plain(r.ttl as nat);
    lemma_plain_not_quoted(r.name);
    lemma_plain_not_quoted(digits);
    lemma_plain_not_quoted(r.class);
    lemma_plain_not_quoted(r.rtype);
    assert(ts[0] == field_token(r.name));
    assert(ts[1] == field_token(digits));
    assert(ts[2] == field_token(r.class));
    assert(ts[3] == field_token(r.rtype));
    lemma_absolute_parses_as_itself(r.name, st.origin);
    lemma_ttl_round_trip(r.ttl);
    assert(scan_ttl_class(ts, 3, Some(r.ttl), Some(r.class)) == (3nat, Some(r.ttl), Some(r.class)));
    assert(scan_ttl_class(ts, 2, Some(r.ttl), None) == (3nat, Some(r.ttl), Some(r.class)));
    assert(scan_ttl_class(ts, 1, None, None) == (3nat, Some(r.ttl), Some(r.class)));
    let fields = ts.skip(4);
    assert(fields =~= field_tokens(r.rdata));
    let generic = fields[0].text == "\\#".spec_bytes();
    assert(generic == generic_rdata(r));
    let nf = if generic {
        Seq::<int>::empty()
    } else {
        name_fields_of(r.rtype)
    };
    assert forall|i: int| 0 <= i < fields.len() implies #[trigger] rdata_spec(
        fields[i],
        nf.contains(i),
        st.origin,
    ) == Some(r.rdata[i]) by {
        let f = r.rdata[i];
        assert(printable_field(f));
        assert(fields[i] == field_token(f));
        if quoted_form(f) {
            assert(f =~= seq![34u8] + f.subrange(1, f.len() - 1) + seq![34u8]);
        } else {
            if nf.contains(i) {
                lemma_absolute_parses_as_itself(f, st.origin);
            }
        }
    }
    assert(rdata_all(fields, nf, st.origin) == Some(r.rdata)) by {
        assert(Seq::new(fields.len(), |i: int| rdata_spec(fields[i], nf.contains(i), st.origin)->0)
            =~= r.rdata);
    }
    if r.rtype == "SOA".spec_bytes() && !generic {
        assert(fields[6] == field_token(r.rdata[6]));
    }
}

/// One entry of printed records read: the next record is added.
proof fn lemma_step_printed(p: ParserV, rs: Seq<RecordV>, k: nat)
    requires
        forall|i: int| 0 <= i < rs.len() ==> reads_back(#[trigger] rs[i]),
        k < rs.len(),
        p.frames.len() == 1,
        p.frames[0].lines == printed_lines(rs),
        p.frames[0].next == k,
    ensures
        parser_step(p) matches StepV::Continue(q) && q.records == p.records.push(rs[k as int])
            && q.frames.len() == 1 && q.frames[0].lines == printed_lines(rs) && q.frames[0].next
            == k + 1,
{
    reveal(parser_step);
    let f = p.frames[0];
    let line = f.lines[k as int];
    let r = rs[k as int];
    assert(reads_back(r));
    assert(line == LineV { number: k + 1, leading_blank: false, tokens: record_tokens(r) });
    lemma_reads_back_text(r);
    lemma_plain_not_quoted(r.name);
    assert(line.tokens[0] == field_token(r.name));
    assert(!is_directive(line));
    lemma_record_reads_back(r, k + 1, f.state);
}

proof fn lemma_run_printed(p: ParserV, rs: Seq<RecordV>, k: nat)
    requires
        forall|i: int| 0 <= i < rs.len() ==> reads_back(#[trigger] rs[i]),
        k <= rs.len(),
        p.frames.len() == 1,
        p.frames[0].lines == printed_lines(rs),
        p.frames[0].next == k,
        p.records == rs.take(k as int),
    ensures
        run_parser(p) matches RunV::Finished(q) && q.records == rs,
    decreases rs.len() - k,
{
    lemma_step_makes_progress(p);
    if k == rs.len() {
        reveal(parser_step);
        let p1 = ParserV { frames: p.frames.drop_last(), ..p };
        assert(parser_step(p) == StepV::Continue(p1));
        assert(parser_step(p1) == StepV::Done(p1));
        assert(rs.take(k as int) =~= rs);
    } else {
        lemma_step_printed(p, rs, k);
        let p1 = parser_step(p)->Continue_0;
        assert(p1.records =~= rs.take((k + 1) as int));
        lemma_run_printed(p1, rs, k + 1);
    }
}

/// Records that read back as themselves do so all together: parsing their
/// printed lines, one per record joined by newlines, gives the same
/// records in the same order, whatever the source and fallback origin. The
/// first owner must not start with a byte order mark, which a parse skips
/// at the start of the text.
pub proof fn lemma_printed_records_read_back(rs: Seq<RecordV>, source: Seq<u8>, fallback: Option<Seq<u8>>)
    requires
        forall|i: int| 0 <= i < rs.len() ==> reads_back(#[trigger] rs[i]),
        rs.len() > 0 ==> !starts_with_bom(rs[0].name),
    ensures
        parse_str_spec(printed(rs), source, fallback) matches Ok(z) && z.records == rs,
{
    assert forall|i: int| 0 <= i < rs.len() implies printable_text(#[trigger] rs[i]) by {
        lemma_reads_back_text(rs[i]);
    }
    if rs.len() > 0 {
        assert(reads_back(rs[0]));
    }
    lemma_tokenise_printed(rs);
    let p0 = parser_start(source, printed_lines(rs), fallback);
    assert(rs.take(0) =~= Seq::<RecordV>::empty());
    lemma_run_printed(p0, rs, 0);
}

pub proof fn lemma_plain_concat(a: Seq<u8>, b: Seq<u8>)
    requires
        plain(a),
        plain(b),
    ensures
        plain(a + b),
    decreases a.len(),
{
    if a.len() == 0 {
        assert(a + b =~= b);
    } else if a[0] == 92u8 {
        assert((a + b).skip(2) =~= a.skip(2) + b);
        lemma_plain_concat(a.skip(2), b);
    } else {
        assert((a + b).skip(1) =~= a.skip(1) + b);
        lemma_plain_concat(a.skip(1), b);
    }
}

pub proof fn lemma_quoted_body_concat(a: Seq<u8>, b: Seq<u8>)
    requires
        quoted_body(a),
        quoted_body(b),
    ensures
        quoted_body(a + b),
    decreases a.len(),
{
    if a.len() == 0 {
        assert(a + b =~= b);
    } else if a[0] == 92u8 {
        assert((a + b).skip(2) =~= a.skip(2) + b);
        lemma_quoted_body_concat(a.skip(2), b);
    } else {
        assert((a + b).skip(1) =~= a.skip(1) + b);
        lemma_quoted_body_concat(a.skip(1), b);
    }
}

/// A token as the lexer makes it: a quoted string's inside, or plain text
/// that doesn't start with a quote.
pub open spec fn token_ok(t: TokenV) -> bool {
    if t.quoted {
        quoted_body(t.text)
    } else {
        t.text.len() > 0 && plain(t.text)
    }
}

pub open spec fn tokens_ok(ts: Seq<TokenV>) -> bool {
    forall|i: int| 0 <= i < ts.len() ==> token_ok(#[trigger] ts[i])
}

pub open spec fn lines_ok(ls: Seq<LineV>) -> bool {
    forall|i: int| 0 <= i < ls.len() ==> tokens_ok((#[trigger] ls[i]).tokens)
}

/// What holds of the lexer between two bytes: the tokens made so far are
/// as the lexer makes them, and so is the one being read.
pub open spec fn lexer_ok(st: LexState) -> bool {
    &&& lines_ok(st.lines)
    &&& tokens_ok(st.tokens)
    &&& match st.mode {
        LexMode::Normal => (st.in_token ==> st.buf.len() > 0 && plain(st.buf)) && (!st.in_token
            ==> st.buf.len() == 0),
        LexMode::Escape => plain(st.buf) && (!st.in_token ==> st.buf.len() == 0),
        LexMode::Quoted => st.in_token && quoted_body(st.buf),
        LexMode::QuotedEscape => st.in_token && quoted_body(st.buf),
        LexMode::Comment => !st.in_token && st.buf.len() == 0,
    }
}

proof fn lemma_flush_token_ok(st: LexState)
    requires
        lines_ok(st.lines),
        tokens_ok(st.tokens),
        st.in_token ==> (st.mode == LexMode::Normal && st.buf.len() > 0 && plain(st.buf)) || (
        st.mode == LexMode::Quoted && quoted_body(st.buf)),
    ensures
        lines_ok(flush_token(st).lines),
        tokens_ok(flush_token(st).tokens),
        !flush_token(st).in_token,
        st.in_token ==> flush_token(st).buf.len() == 0,
{
    if st.in_token {
        let t = TokenV { text: st.buf, quoted: st.mode == LexMode::Quoted };
        assert(token_ok(t));
        let ts = st.tokens.push(t);
        assert forall|i: int| 0 <= i < ts.len() implies token_ok(#[trigger] ts[i]) by {
            if i < st.tokens.len() {
                assert(ts[i] == st.tokens[i]);
            }
        }
    }
}

proof fn lemma_flush_line_ok(st: LexState)
    requires
        lines_ok(st.lines),
        tokens_ok(st.tokens),
        st.in_token ==> st.mode == LexMode::Normal && st.buf.len() > 0 && plain(st.buf),
    ensures
        lines_ok(flush_line(st).lines),
        tokens_ok(flush_line(st).tokens),
        !flush_line(st).in_token,
{
    lemma_flush_token_ok(st);
    let s = flush_token(st);
    if s.tokens.len() > 0 {
        let l = LineV { number: s.entry_line, leading_blank: s.leading_blank, tokens: s.tokens };
        let ls = s.lines.push(l);
        assert forall|i: int| 0 <= i < ls.len() implies tokens_ok((#[trigger] ls[i]).tokens) by {
            if i < s.lines.len() {
                assert(ls[i] == s.lines[i]);
            }
        }
        assert(tokens_ok(Seq::<TokenV>::empty()));
    }
}

proof fn lemma_lex_step_ok(st: LexState, c: u8)
    requires
        lexer_ok(st),
    ensures
        lex_step(st, c) matches Ok(s) ==> lexer_ok(s),
{
    match st.mode {
        LexMode::Comment => {
            if c == 10u8 {
                let s0 = start_line(LexState { mode: LexMode::Normal, ..st }, c);
                lemma_flush_line_ok(s0);
                lemma_flush_token_ok(s0);
            }
        },
        LexMode::Escape => {
            if c != 10u8 && c != 13u8 {
                assert(plain(seq![92u8, c])) by {
                    assert(seq![92u8, c].skip(2) =~= Seq::<u8>::empty());
                    assert(plain(Seq::<u8>::empty()));
                }
                lemma_plain_concat(st.buf, seq![92u8, c]);
                assert(st.buf.push(92u8).push(c) =~= st.buf + seq![92u8, c]);
            }
        },
        LexMode::QuotedEscape => {
            if c != 10u8 {
                assert(quoted_body(seq![92u8, c])) by {
                    assert(seq![92u8, c].skip(2) =~= Seq::<u8>::empty());
                    assert(quoted_body(Seq::<u8>::empty()));
                }
                lemma_quoted_body_concat(st.buf, seq![92u8, c]);
                assert(st.buf.push(92u8).push(c) =~= st.buf + seq![92u8, c]);
            }
        },
        LexMode::Quoted => {
            let s0 = start_line(st, c);
            if c == 34u8 {
                lemma_flush_token_ok(s0);
            } else if c != 92u8 && c != 10u8 {
                assert(quoted_body(seq![c])) by {
                    assert(seq![c].skip(1) =~= Seq::<u8>::empty());
                    assert(quoted_body(Seq::<u8>::empty()));
                }
                lemma_quoted_body_concat(st.buf, seq![c]);
                assert(st.buf.push(c) =~= st.buf + seq![c]);
            }
        },
        LexMode::Normal => {
            let s0 = start_line(st, c);
            lemma_flush_token_ok(s0);
            if c == 10u8 && s0.depth == 0 {
                lemma_flush_line_ok(s0);
            }
            if !is_special(c) {
                assert(plain(seq![c])) by {
                    assert(seq![c].skip(1) =~= Seq::<u8>::empty());
                    assert(plain(Seq::<u8>::empty()));
                }
                lemma_plain_concat(s0.buf, seq![c]);
                assert(s0.buf.push(c) =~= s0.buf + seq![c]);
            }
        },
    }
}

proof fn lemma_lex_prefix_ok(s: Seq<u8>, m: nat)
    requires
        m <= s.len(),
    ensures
        lex_prefix(s, m) matches Ok(st) ==> lexer_ok(st),
    decreases m,
{
    if m > 0 {
        lemma_lex_prefix_ok(s, (m - 1) as nat);
        if let Ok(st) = lex_prefix(s, (m - 1) as nat) {
            lemma_lex_step_ok(st, s[m - 1]);
        }
    } else {
        assert(lines_ok(Seq::<LineV>::empty()));
        assert(tokens_ok(Seq::<TokenV>::empty()));
    }
}

/// Every token the lexer makes is a quoted string's inside, or plain text.
pub proof fn lemma_tokenise_ok(b: Seq<u8>)
    ensures
        tokenise_spec(b) matches Ok(ls) ==> lines_ok(ls),
{
    let s = strip_bom(b);
    lemma_lex_prefix_ok(s, s.len());
    if let Ok(st) = lex_prefix(s, s.len()) {
        if st.mode == LexMode::Normal || st.mode == LexMode::Comment {
            lemma_flush_line_ok(st);
        }
    }
}

proof fn lemma_ttl_bound(raw: Seq<u8>)
    ensures
        ttl_value(raw) matches Some(t) ==> t <= MAX_TTL,
{
}

proof fn lemma_upper_twice(s: Seq<u8>)
    ensures
        upper_seq(upper_seq(s)) == upper_seq(s),
{
    assert(upper_seq(upper_seq(s)) =~= upper_seq(s));
}

proof fn lemma_class_again(raw: Seq<u8>)
    ensures
        class_value(raw) matches Some(c) ==> class_value(c) == Some(c),
{
    lemma_upper_twice(raw);
}

proof fn lemma_class_in()
    ensures
        class_value("IN".spec_bytes()) == Some("IN".spec_bytes()),
{
    reveal_strlit("IN");
    lemma_ascii_str("IN");
    assert("IN".spec_bytes() =~= seq![73u8, 78u8]);
    assert(upper_seq(seq![73u8, 78u8]) =~= seq![73u8, 78u8]);
}

proof fn lemma_type_upper(t: Seq<u8>)
    requires
        type_like(t),
    ensures
        type_like(upper_seq(t)),
        upper_seq(upper_seq(t)) == upper_seq(t),
{
    lemma_upper_twice(t);
    let u = upper_seq(t);
    assert forall|i: int| 0 <= i < u.len() implies is_alpha(#[trigger] u[i]) || is_digit(u[i]) || u[i]
        == 45u8 by {
        assert(is_alpha(t[i]) || is_digit(t[i]) || t[i] == 45u8);
    }
}

/// What a parse keeps in its state between entries.
pub open spec fn state_ok(st: StateV) -> bool {
    &&& (st.origin matches Some(o) ==> is_name(o))
    &&& (st.last_owner matches Some(o) ==> is_name(o))
    &&& (st.last_class matches Some(c) ==> class_value(c) == Some(c))
    &&& (st.default_ttl matches Some(t) ==> t <= MAX_TTL)
    &&& (st.last_ttl matches Some(t) ==> t <= MAX_TTL)
}

/// A record as a parse makes it. Only a name field can be other than
/// printable, and then it is an absolute name.
pub open spec fn parsed_record(r: RecordV) -> bool {
    &&& is_name(r.name)
    &&& r.ttl <= MAX_TTL
    &&& class_value(r.class) == Some(r.class)
    &&& type_like(r.rtype)
    &&& upper_seq(r.rtype) == r.rtype
    &&& r.rdata.len() >= 1
    &&& forall|i: int| 0 <= i < r.rdata.len() ==> printable_field(#[trigger] r.rdata[i]) || is_name(r.rdata[i])
    &&& !generic_rdata(r) ==> forall|k: int|
        0 <= k < r.rdata.len() && name_fields_of(r.rtype).contains(k) && !quoted_form(
            #[trigger] r.rdata[k],
        ) ==> is_name(r.rdata[k])
    &&& (r.rtype == "SOA".spec_bytes() && !generic_rdata(r)) ==> r.rdata.len() == 7 && ttl_value(
        field_token(r.rdata[6]).text,
    ) is Some
}

proof fn lemma_stored_field(tok: TokenV, name_field: bool, origin: Option<Seq<u8>>)
    requires
        token_ok(tok),
        origin matches Some(o) ==> is_name(o),
        rdata_spec(tok, name_field, origin) is Some,
    ensures
        ({
            let f = rdata_spec(tok, name_field, origin)->0;
            &&& printable_field(f) || is_name(f)
            &&& tok.quoted ==> quoted_form(f) && field_token(f) == tok
            &&& !tok.quoted && !name_field ==> field_token(f) == tok
            &&& !tok.quoted && name_field ==> is_name(f) && !quoted_form(f) && field_token(f).text == f
        }),
{
    let f = rdata_spec(tok, name_field, origin)->0;
    if tok.quoted {
        assert(f.subrange(1, f.len() - 1) =~= tok.text);
    } else if name_field {
        lemma_parse_gives_absolute(tok.text, origin);
    } else {
        lemma_plain_not_quoted(tok.text);
    }
}

proof fn lemma_no_name_field_six(t: Seq<u8>)
    ensures
        !name_fields_of(t).contains(6),
{
    reveal(name_fields_of);
    let nf = name_fields_of(t);
    if nf.contains(6) {
        let j = choose|j: int| 0 <= j < nf.len() && nf[j] == 6;
        assert(nf[j] == 6);
    }
}

/// An entry read as a record gives a record as a parse makes it, and a
/// state that stays as a parse keeps it.
proof fn lemma_record_parsed(line: LineV, st: StateV)
    requires
        tokens_ok(line.tokens),
        state_ok(st),
        record_spec(line, st) is Some,
    ensures
        parsed_record(record_spec(line, st).unwrap().0),
        state_ok(record_spec(line, st).unwrap().1),
{
    let ts = line.tokens;
    let (r, st2) = record_spec(line, st).unwrap();
    let start: nat = if line.leading_blank {
        0
    } else {
        1
    };
    if !line.leading_blank {
        lemma_parse_gives_absolute(ts[0].text, st.origin);
    }
    let (idx, ttl, class) = scan_ttl_class(ts, start, None, None);
    lemma_scan_ok(ts, start, None, None);
    let t = ts[idx as int].text;
    let fields = ts.skip(idx as int + 1);
    let generic = fields[0].text == "\\#".spec_bytes();
    let soa = upper_seq(t) == "SOA".spec_bytes() && !generic;
    lemma_type_upper(t);
    lemma_ttl_bound(fields[6].text);
    lemma_class_in();
    let nf = if generic {
        Seq::<int>::empty()
    } else {
        name_fields_of(upper_seq(t))
    };
    assert forall|i: int| 0 <= i < fields.len() implies token_ok(#[trigger] fields[i]) by {
        assert(fields[i] == ts[idx + 1 + i]);
    }
    assert(r.rdata =~= Seq::new(fields.len(), |i: int| rdata_spec(fields[i], nf.contains(i), st.origin)->0));
    assert forall|i: int| 0 <= i < r.rdata.len() implies printable_field(#[trigger] r.rdata[i]) || is_name(r.rdata[i]) by {
        assert(rdata_spec(fields[i], nf.contains(i), st.origin) is Some);
        lemma_stored_field(fields[i], nf.contains(i), st.origin);
    }
    assert(rdata_spec(fields[0], nf.contains(0), st.origin) is Some);
    lemma_stored_field(fields[0], nf.contains(0), st.origin);
    reveal_strlit("\\#");
    assert("\\#".spec_bytes().len() == 2) by {
        lemma_ascii_str("\\#");
    }
    assert("\\#".spec_bytes().last() == 35u8) by {
        lemma_ascii_str("\\#");
    }
    assert(generic_rdata(r) == generic);
    assert(!generic ==> forall|k: int|
        0 <= k < r.rdata.len() && name_fields_of(r.rtype).contains(k) && !quoted_form(
            #[trigger] r.rdata[k],
        ) ==> is_name(r.rdata[k])) by {
        if !generic {
            assert forall|k: int|
                0 <= k < r.rdata.len() && name_fields_of(r.rtype).contains(k) && !quoted_form(
                    #[trigger] r.rdata[k],
                ) implies is_name(r.rdata[k]) by {
                assert(rdata_spec(fields[k], nf.contains(k), st.origin) is Some);
                lemma_stored_field(fields[k], nf.contains(k), st.origin);
            }
        }
    }
    if soa {
        lemma_no_name_field_six(upper_seq(t));
        assert(rdata_spec(fields[6], nf.contains(6), st.origin) is Some);
        lemma_stored_field(fields[6], nf.contains(6), st.origin);
    }
}

proof fn lemma_scan_ok(ts: Seq<TokenV>, idx: nat, ttl: Option<u32>, class: Option<Seq<u8>>)
    requires
        ttl matches Some(t) ==> t <= MAX_TTL,
        class matches Some(c) ==> class_value(c) == Some(c),
    ensures
        ({
            let (i, t2, c2) = scan_ttl_class(ts, idx, ttl, class);
            &&& (t2 matches Some(t) ==> t <= MAX_TTL)
            &&& (c2 matches Some(c) ==> class_value(c) == Some(c))
        }),
    decreases ts.len() - idx,
{
    if idx < ts.len() {
        let text = ts[idx as int].text;
        lemma_ttl_bound(text);
        lemma_class_again(text);
        if ttl is None && ttl_value(text) is Some {
            lemma_scan_ok(ts, idx + 1, ttl_value(text), class);
        } else if class is None && class_value(text) is Some {
            lemma_scan_ok(ts, idx + 1, ttl, class_value(text));
        }
    }
}

/// What a parse keeps true as it reads: the files' states and entries, and
/// the records made so far.
pub open spec fn parser_ok(p: ParserV) -> bool {
    &&& forall|j: int|
        0 <= j < p.frames.len() ==> state_ok((#[trigger] p.frames[j]).state) && lines_ok(
            p.frames[j].lines,
        )
    &&& forall|i: int| 0 <= i < p.records.len() ==> parsed_record(#[trigger] p.records[i])
}

proof fn lemma_parser_step_ok(p: ParserV)
    requires
        parser_ok(p),
    ensures
        parser_step(p) matches StepV::Continue(q) ==> parser_ok(q),
{
    reveal(parser_step);
    if p.frames.len() > 0 {
        let k = p.frames.len() - 1;
        let f = p.frames[k];
        assert(state_ok(f.state) && lines_ok(f.lines));
        if f.next < f.lines.len() {
            let line = f.lines[f.next as int];
            assert(tokens_ok(line.tokens));
            if line.tokens.len() > 0 {
                if is_directive(line) {
                    let args = line.tokens.skip(1);
                    if args.len() >= 1 {
                        let o = match f.state.origin {
                            Some(o) => o,
                            None => root_bytes(),
                        };
                        assert(root_bytes().drop_last() =~= Seq::<u8>::empty());
                        lemma_parse_gives_absolute(args[0].text, Some(o));
                        lemma_ttl_bound(args[0].text);
                    }
                } else if record_spec(line, f.state) is Some {
                    lemma_record_parsed(line, f.state);
                    let r = record_spec(line, f.state).unwrap().0;
                    if let StepV::Continue(q) = parser_step(p) {
                        assert forall|i: int| 0 <= i < q.records.len() implies parsed_record(
                            #[trigger] q.records[i],
                        ) by {
                            if i < p.records.len() {
                                assert(q.records[i] == p.records[i]);
                            }
                        }
                    }
                }
            }
        }
    }
}

proof fn lemma_run_ok(p: ParserV)
    requires
        parser_ok(p),
    ensures
        run_parser(p) matches RunV::Finished(q) ==> parser_ok(q),
    decreases work_left(p.frames),
{
    lemma_step_makes_progress(p);
    lemma_parser_step_ok(p);
    match parser_step(p) {
        StepV::Continue(q) => {
            if work_left(q.frames) < work_left(p.frames) {
                lemma_run_ok(q);
            }
        },
        StepV::Done(q) => {
            reveal(parser_step);
        },
        _ => {},
    }
}

/// A record prints as one line of single tokens: its owner and every rdata
/// field print as one token each, and the owner doesn't start with `$`.
pub open spec fn prints_plainly(r: RecordV) -> bool {
    &&& plain(r.name)
    &&& r.name.len() > 0
    &&& r.name[0] != 36u8
    &&& forall|i: int| 0 <= i < r.rdata.len() ==> printable_field(#[trigger] r.rdata[i])
}

/// Every record a parse gives has an absolute owner without empty labels,
/// a TTL in range, a known class, and its type in upper case.
pub proof fn lemma_parsed_records(input: Seq<u8>, source: Seq<u8>, fallback: Option<Seq<u8>>)
    requires
        fallback matches Some(o) ==> is_name(o),
    ensures
        parse_str_spec(input, source, fallback) matches Ok(z) ==> forall|i: int|
            0 <= i < z.records.len() ==> parsed_record(#[trigger] z.records[i]),
{
    if let Ok(z) = parse_str_spec(input, source, fallback) {
        lemma_tokenise_ok(input);
        let lines = tokenise_spec(input)->Ok_0;
        let p0 = parser_start(source, lines, fallback);
        assert(parser_ok(p0));
        lemma_run_ok(p0);
    }
}

/// Printing the records of a parsed zone and reading them back gives the
/// same records, wherever they print plainly and the first owner doesn't
/// start with a byte order mark.
pub proof fn lemma_parsed_zone_reads_back(
    input: Seq<u8>,
    source: Seq<u8>,
    fallback: Option<Seq<u8>>,
    source2: Seq<u8>,
    fallback2: Option<Seq<u8>>,
)
    requires
        fallback matches Some(o) ==> is_name(o),
        parse_str_spec(input, source, fallback) matches Ok(z) ==> forall|i: int|
            0 <= i < z.records.len() ==> prints_plainly(#[trigger] z.records[i]),
        parse_str_spec(input, source, fallback) matches Ok(z) ==> (z.records.len() > 0
            ==> !starts_with_bom(z.records[0].name)),
    ensures
        parse_str_spec(input, source, fallback) matches Ok(z) ==> (parse_str_spec(
            printed(z.records),
            source2,
            fallback2,
        ) matches Ok(z2) && z2.records == z.records),
{
    if let Ok(z) = parse_str_spec(input, source, fallback) {
        lemma_parsed_records(input, source, fallback);
        let rs = z.records;
        assert forall|i: int| 0 <= i < rs.len() implies reads_back(#[trigger] rs[i]) by {
            assert(parsed_record(rs[i]));
            assert(prints_plainly(rs[i]));
        }
        lemma_printed_records_read_back(rs, source2, fallback2);
    }
}

} // verus!
