//! Zone files: records, and the directives that shape them.
//!
//! How one entry of a zone file becomes a record, or changes the parser's
//! state, is stated over plain values ([`record_spec`], [`directive_spec`]).
//! Reading the zone is a machine that handles one entry per step
//! ([`ZoneParser::step`], stated by [`parser_step`]); an `$INCLUDE` makes it
//! stop and ask for the file's text, which whoever drives it reads and hands
//! back with [`ZoneParser::enter_file`].

use vstd::prelude::*;
use vstd::string::*;
use crate::error::Error;
use crate::lexer::{Line, Token, LineV, TokenV, tokenise, lines_view, tokens_view, token_view, tokenise_spec, fault_message};
use crate::name::{Name, parse_name, opt_bytes, root_bytes, trailing_backslashes, count_trailing_backslashes, name_error};
use vstd::utf8::{encode_utf8, valid_utf8, valid_first_scalar, length_of_first_scalar, decode_first_codepoint, pop_first_scalar};
use crate::text::{
    string_bytes, upper, upper_seq, is_digit, is_alpha, all_digits, to_upper, utf8_string,
    string_of, push_str, push_ascii, message, is_text, decimal_string, lemma_ascii_valid,
    ascii_string, prefixed, decimal_digits,
};
use crate::ttl::{parse_ttl, ttl_value};

verus! {

broadcast use vstd::utf8::encode_utf8_valid_utf8, vstd::utf8::encode_utf8_decode_utf8;

/// How deep `$INCLUDE`s may nest before it looks like a loop.
pub const MAX_INCLUDE_DEPTH: usize = 16;

#[derive(Debug)]
pub struct Record {
    pub name: Name,
    pub ttl: u32,
    pub class: String,
    pub rtype: String,
    pub rdata: Vec<String>,
}

pub struct RecordV {
    pub name: Seq<u8>,
    pub ttl: u32,
    pub class: Seq<u8>,
    pub rtype: Seq<u8>,
    pub rdata: Seq<Seq<u8>>,
}

pub open spec fn strings_view(v: Seq<String>) -> Seq<Seq<u8>> {
    v.map_values(|s: String| string_bytes(&s))
}

pub open spec fn record_view(r: Record) -> RecordV {
    RecordV {
        name: r.name@,
        ttl: r.ttl,
        class: string_bytes(&r.class),
        rtype: string_bytes(&r.rtype),
        rdata: strings_view(r.rdata@),
    }
}

pub open spec fn records_view(rs: Seq<Record>) -> Seq<RecordV> {
    rs.map_values(|r: Record| record_view(r))
}

/// A copy of each string.
pub fn clone_strings(v: &Vec<String>) -> (r: Vec<String>)
    ensures
        strings_view(r@) == strings_view(v@),
{
    let mut out: Vec<String> = Vec::new();
    let mut i: usize = 0;
    while i < v.len()
        invariant
            0 <= i <= v@.len(),
            strings_view(out@) == strings_view(v@.take(i as int)),
        decreases v@.len() - i,
    {
        let ghost prev = out@;
        out.push(v[i].clone());
        proof {
            assert(strings_view(out@) =~= strings_view(prev).push(string_bytes(&v@[i as int])));
            assert(strings_view(v@.take(i + 1)) =~= strings_view(v@.take(i as int)).push(
                string_bytes(&v@[i as int]),
            ));
        }
        i += 1;
    }
    proof {
        assert(v@.take(v@.len() as int) =~= v@);
    }
    out
}

impl Clone for Record {
    fn clone(&self) -> (r: Record)
        ensures
            record_view(r) == record_view(*self),
    {
        Record {
            name: self.name.clone(),
            ttl: self.ttl,
            class: self.class.clone(),
            rtype: self.rtype.clone(),
            rdata: clone_strings(&self.rdata),
        }
    }
}

/// The state a zone file builds up as it goes, which later entries inherit.
#[derive(Debug)]
pub struct State {
    pub origin: Option<Name>,
    pub default_ttl: Option<u32>,
    pub last_ttl: Option<u32>,
    pub last_class: Option<String>,
    pub last_owner: Option<Name>,
    pub depth: usize,
}

pub struct StateV {
    pub origin: Option<Seq<u8>>,
    pub default_ttl: Option<u32>,
    pub last_ttl: Option<u32>,
    pub last_class: Option<Seq<u8>>,
    pub last_owner: Option<Seq<u8>>,
    pub depth: nat,
}

pub open spec fn opt_name(o: Option<Name>) -> Option<Seq<u8>> {
    match o {
        Some(n) => Some(n@),
        None => None,
    }
}

pub open spec fn opt_string(o: Option<String>) -> Option<Seq<u8>> {
    match o {
        Some(s) => Some(string_bytes(&s)),
        None => None,
    }
}

pub open spec fn state_view(s: State) -> StateV {
    StateV {
        origin: opt_name(s.origin),
        default_ttl: s.default_ttl,
        last_ttl: s.last_ttl,
        last_class: opt_string(s.last_class),
        last_owner: opt_name(s.last_owner),
        depth: s.depth as nat,
    }
}

pub fn clone_opt_name(o: &Option<Name>) -> (r: Option<Name>)
    ensures
        opt_name(r) == opt_name(*o),
{
    match o {
        Some(n) => Some(n.clone()),
        None => None,
    }
}

impl State {
    pub fn new(origin: Option<Name>) -> (s: State)
        ensures
            state_view(s) == (StateV {
                origin: opt_name(origin),
                default_ttl: None,
                last_ttl: None,
                last_class: None,
                last_owner: None,
                depth: 0,
            }),
    {
        State {
            origin,
            default_ttl: None,
            last_ttl: None,
            last_class: None,
            last_owner: None,
            depth: 0,
        }
    }

    pub fn copy(&self) -> (s: State)
        ensures
            state_view(s) == state_view(*self),
    {
        State {
            origin: clone_opt_name(&self.origin),
            default_ttl: self.default_ttl,
            last_ttl: self.last_ttl,
            last_class: match &self.last_class {
                Some(c) => Some(c.clone()),
                None => None,
            },
            last_owner: clone_opt_name(&self.last_owner),
            depth: self.depth,
        }
    }
}

/// A class name, uppercased: `IN`, `CH`, `HS`, `CS`, or RFC 3597's
/// `CLASS<number>`.
pub open spec fn class_value(raw: Seq<u8>) -> Option<Seq<u8>> {
    let u = upper_seq(raw);
    let generic = "CLASS".spec_bytes();
    if u == "IN".spec_bytes() || u == "CH".spec_bytes() || u == "HS".spec_bytes() || u
        == "CS".spec_bytes() || (u.len() > generic.len() && u.take(generic.len() as int)
        == generic && all_digits(u.skip(generic.len() as int))) {
        Some(u)
    } else {
        None
    }
}

/// Looks like a record type: a letter, then letters, digits and hyphens.
pub open spec fn type_like(raw: Seq<u8>) -> bool {
    &&& raw.len() > 0
    &&& is_alpha(raw[0])
    &&& forall|i: int|
        0 <= i < raw.len() ==> is_alpha(#[trigger] raw[i]) || is_digit(raw[i]) || raw[i] == 45u8
}

/// Which rdata fields of a type hold domain names, to be made absolute.
#[verifier::opaque]
pub open spec fn name_fields_of(t: Seq<u8>) -> Seq<int> {
    if t == "NS".spec_bytes() || t == "CNAME".spec_bytes() || t == "PTR".spec_bytes() || t
        == "DNAME".spec_bytes() || t == "MB".spec_bytes() || t == "MG".spec_bytes() || t
        == "MR".spec_bytes() || t == "NSEC".spec_bytes() {
        seq![0]
    } else if t == "MX".spec_bytes() || t == "AFSDB".spec_bytes() || t == "RT".spec_bytes() || t
        == "KX".spec_bytes() || t == "LP".spec_bytes() || t == "SVCB".spec_bytes() || t
        == "HTTPS".spec_bytes() {
        seq![1]
    } else if t == "SOA".spec_bytes() || t == "RP".spec_bytes() || t == "MINFO".spec_bytes() {
        seq![0, 1]
    } else if t == "PX".spec_bytes() {
        seq![1, 2]
    } else if t == "SRV".spec_bytes() {
        seq![3]
    } else if t == "NAPTR".spec_bytes() {
        seq![5]
    } else if t == "RRSIG".spec_bytes() {
        seq![7]
    } else {
        Seq::empty()
    }
}

/// One rdata field as stored: quoted strings keep their quotes, and names
/// are made absolute.
pub open spec fn rdata_spec(tok: TokenV, is_name: bool, origin: Option<Seq<u8>>) -> Option<Seq<u8>> {
    if tok.quoted {
        Some(seq![34u8] + tok.text + seq![34u8])
    } else if is_name {
        parse_name(tok.text, origin)
    } else {
        Some(tok.text)
    }
}

/// Reads optional TTL and class tokens, in either order, from `idx` on.
pub open spec fn scan_ttl_class(ts: Seq<TokenV>, idx: nat, ttl: Option<u32>, class: Option<Seq<u8>>) -> (
    nat,
    Option<u32>,
    Option<Seq<u8>>,
)
    decreases ts.len() - idx,
{
    if idx >= ts.len() {
        (idx, ttl, class)
    } else if ttl is None && ttl_value(ts[idx as int].text) is Some {
        scan_ttl_class(ts, idx + 1, ttl_value(ts[idx as int].text), class)
    } else if class is None && class_value(ts[idx as int].text) is Some {
        scan_ttl_class(ts, idx + 1, ttl, class_value(ts[idx as int].text))
    } else {
        (idx, ttl, class)
    }
}

/// Every rdata field, or `None` when one of them isn't a valid name.
pub open spec fn rdata_all(fields: Seq<TokenV>, nf: Seq<int>, origin: Option<Seq<u8>>) -> Option<
    Seq<Seq<u8>>,
> {
    if forall|i: int| 0 <= i < fields.len() ==> #[trigger] rdata_spec(fields[i], nf.contains(i), origin) is Some {
        Some(Seq::new(fields.len(), |i: int| rdata_spec(fields[i], nf.contains(i), origin)->0))
    } else {
        None
    }
}

/// The record an entry stands for, and the state after it; `None` when the
/// entry isn't a valid record.
pub open spec fn record_spec(line: LineV, st: StateV) -> Option<(RecordV, StateV)> {
    let ts = line.tokens;
    let owner = if line.leading_blank {
        st.last_owner
    } else {
        parse_name(ts[0].text, st.origin)
    };
    let start: nat = if line.leading_blank {
        0
    } else {
        1
    };
    let (idx, ttl, class) = scan_ttl_class(ts, start, None, None);
    if owner is None || idx >= ts.len() {
        None
    } else {
        let t = ts[idx as int].text;
        let rtype = upper_seq(t);
        let fields = ts.skip(idx as int + 1);
        if (t.len() > 0 && is_digit(t[0])) || !type_like(t) || fields.len() == 0 {
            None
        } else {
            let generic = fields[0].text == "\\#".spec_bytes();
            let soa = rtype == "SOA".spec_bytes() && !generic;
            let minimum = ttl_value(fields[6].text);
            if soa && (fields.len() != 7 || minimum is None) {
                None
            } else {
                let default_ttl = if soa && ttl is None && st.default_ttl is None
                    && st.last_ttl is None {
                    minimum
                } else {
                    st.default_ttl
                };
                let last_class = if class is Some {
                    class
                } else {
                    st.last_class
                };
                let class_final = if class is Some {
                    class->0
                } else if st.last_class is Some {
                    st.last_class->0
                } else {
                    "IN".spec_bytes()
                };
                let last_ttl = if ttl is Some {
                    ttl
                } else {
                    st.last_ttl
                };
                let ttl_final = if ttl is Some {
                    ttl
                } else if default_ttl is Some {
                    default_ttl
                } else {
                    last_ttl
                };
                let nf = if generic {
                    Seq::empty()
                } else {
                    name_fields_of(rtype)
                };
                let rdata = rdata_all(fields, nf, st.origin);
                if ttl_final is None || rdata is None {
                    None
                } else {
                    Some(
                        (
                            RecordV {
                                name: owner->0,
                                ttl: ttl_final->0,
                                class: class_final,
                                rtype,
                                rdata: rdata->0,
                            },
                            StateV {
                                default_ttl,
                                last_class,
                                last_ttl,
                                last_owner: owner,
                                ..st
                            },
                        ),
                    )
                }
            }
        }
    }
}

/// The TTL token an entry gives, if any: the first token after the owner
/// that reads as a TTL, among the TTL and class that may come before the
/// type.
pub open spec fn entry_ttl(line: LineV) -> Option<u32> {
    scan_ttl_class(line.tokens, if line.leading_blank { 0 } else { 1 }, None, None).1
}

/// A TTL written on a record is that record's TTL, and it carries on: the
/// next record that gives no TTL of its own, with no `$TTL` in force, has
/// the same TTL, whatever its type (an SOA's minimum included).
pub proof fn lemma_explicit_ttl_carries_on(l1: LineV, l2: LineV, st: StateV)
    requires
        record_spec(l1, st) matches Some(first) && record_spec(l2, first.1) is Some,
        entry_ttl(l1) is Some,
        st.default_ttl is None,
        entry_ttl(l2) is None,
    ensures
        record_spec(l1, st) matches Some(first) && {
            &&& first.0.ttl == entry_ttl(l1)->0
            &&& first.1.default_ttl is None
            &&& first.1.last_ttl == entry_ttl(l1)
            &&& record_spec(l2, first.1) matches Some(second) && second.0.ttl == first.0.ttl
        },
{
}

/// A record that gives no TTL takes the `$TTL` in force, before any TTL an
/// earlier record gave; with neither, it takes the last TTL a record gave.
/// Either way the state keeps both for the records after it.
pub proof fn lemma_missing_ttl_is_inherited(l: LineV, st: StateV)
    requires
        record_spec(l, st) is Some,
        entry_ttl(l) is None,
    ensures
        record_spec(l, st) matches Some(done) && {
            &&& st.default_ttl matches Some(d) ==> done.0.ttl == d && done.1.default_ttl == Some(d)
            &&& (st.default_ttl is None && st.last_ttl is Some) ==> done.0.ttl == st.last_ttl->0
            &&& done.1.last_ttl == st.last_ttl
        },
{
}

/// Why the rdata fields from `i` on aren't all valid: the first name field
/// that isn't a name.
pub open spec fn rdata_error(fields: Seq<TokenV>, nf: Seq<int>, origin: Option<Seq<u8>>, i: nat) -> Seq<u8>
    decreases fields.len() - i,
{
    if i >= fields.len() {
        Seq::empty()
    } else if rdata_spec(fields[i as int], nf.contains(i as int), origin) is None {
        name_error(fields[i as int].text, origin)
    } else {
        rdata_error(fields, nf, origin, i + 1)
    }
}

/// Why an entry is no record, where [`record_spec`] finds none.
pub open spec fn record_error(line: LineV, st: StateV) -> Seq<u8> {
    let ts = line.tokens;
    let start: nat = if line.leading_blank {
        0
    } else {
        1
    };
    let (idx, ttl, class) = scan_ttl_class(ts, start, None, None);
    if line.leading_blank && st.last_owner is None {
        "record has no owner name and there's no previous one to inherit".spec_bytes()
    } else if !line.leading_blank && parse_name(ts[0].text, st.origin) is None {
        name_error(ts[0].text, st.origin)
    } else if idx >= ts.len() {
        "missing record type".spec_bytes()
    } else {
        let t = ts[idx as int].text;
        let rtype = upper_seq(t);
        let fields = ts.skip(idx as int + 1);
        let generic = fields[0].text == "\\#".spec_bytes();
        let soa = rtype == "SOA".spec_bytes() && !generic;
        if t.len() > 0 && is_digit(t[0]) {
            "invalid TTL ".spec_bytes() + t
        } else if !type_like(t) {
            "expected a record type, found ".spec_bytes() + t
        } else if fields.len() == 0 {
            rtype + " record has no data".spec_bytes()
        } else if soa && fields.len() != 7 {
            "SOA needs 7 fields, found ".spec_bytes() + decimal_digits(fields.len())
        } else if soa && ttl_value(fields[6].text) is None {
            "invalid SOA minimum ".spec_bytes() + fields[6].text
        } else if !soa && ttl is None && st.default_ttl is None && st.last_ttl is None {
            "no TTL given and no $TTL, previous TTL or SOA to fall back on".spec_bytes()
        } else {
            rdata_error(
                fields,
                if generic {
                    Seq::empty()
                } else {
                    name_fields_of(rtype)
                },
                st.origin,
                0,
            )
        }
    }
}

pub open spec fn usizes_view(v: Seq<usize>) -> Seq<int> {
    v.map_values(|i: usize| i as int)
}

/// The name behind an optional name, by reference.
pub fn name_ref(o: &Option<Name>) -> (r: Option<&Name>)
    ensures
        opt_bytes(r) == opt_name(*o),
{
    match o {
        Some(n) => Some(n),
        None => None,
    }
}

fn upper_bytes(b: &[u8]) -> (r: Vec<u8>)
    ensures
        r@ == upper_seq(b@),
{
    let mut up: Vec<u8> = Vec::new();
    let mut i: usize = 0;
    while i < b.len()
        invariant
            0 <= i <= b@.len(),
            up@ == upper_seq(b@.take(i as int)),
        decreases b@.len() - i,
    {
        up.push(to_upper(b[i]));
        proof {
            assert(upper_seq(b@.take(i + 1)) =~= upper_seq(b@.take(i as int)).push(upper(b@[i as int])));
        }
        i += 1;
    }
    proof {
        assert(b@.take(b@.len() as int) =~= b@);
    }
    up
}

fn all_digits_from(b: &[u8], from: usize) -> (r: bool)
    requires
        from <= b@.len(),
    ensures
        r == all_digits(b@.skip(from as int)),
{
    let mut i = from;
    while i < b.len()
        invariant
            from <= i <= b@.len(),
            forall|j: int| from <= j < i ==> is_digit(#[trigger] b@[j]),
        decreases b@.len() - i,
    {
        if !(b[i] >= 48u8 && b[i] <= 57u8) {
            proof {
                assert(b@.skip(from as int)[i - from] == b@[i as int]);
            }
            return false;
        }
        i += 1;
    }
    proof {
        assert forall|j: int| 0 <= j < b@.skip(from as int).len() implies is_digit(
            #[trigger] b@.skip(from as int)[j],
        ) by {
            assert(b@.skip(from as int)[j] == b@[from + j]);
        }
    }
    true
}

fn starts_with(b: &[u8], lit: &[u8]) -> (r: bool)
    ensures
        r == (b@.len() >= lit@.len() && b@.take(lit@.len() as int) == lit@),
{
    if b.len() < lit.len() {
        return false;
    }
    let mut i: usize = 0;
    while i < lit.len()
        invariant
            lit@.len() <= b@.len(),
            0 <= i <= lit@.len(),
            forall|j: int| 0 <= j < i ==> b@[j] == lit@[j],
        decreases lit@.len() - i,
    {
        if b[i] != lit[i] {
            proof {
                assert(b@.take(lit@.len() as int)[i as int] != lit@[i as int]);
            }
            return false;
        }
        i += 1;
    }
    proof {
        assert(b@.take(lit@.len() as int) =~= lit@);
    }
    true
}

/// Reads `raw` as a class name, uppercased.
fn parse_class(raw: &str) -> (r: Option<String>)
    ensures
        opt_string(r) == class_value(raw.spec_bytes()),
{
    let up = upper_bytes(raw.as_bytes());
    let u = up.as_slice();
    let known = is_text(u, "IN") || is_text(u, "CH") || is_text(u, "HS") || is_text(u, "CS");
    let g = "CLASS".as_bytes();
    let generic = u.len() > g.len() && starts_with(u, g) && all_digits_from(u, g.len());
    if known || generic {
        proof {
            if !known {
                let d = u@.skip(g@.len() as int);
                assert forall|j: int| 0 <= j < d.len() implies #[trigger] d[j] < 0x80 by {
                    assert(is_digit(d[j]));
                }
                lemma_ascii_valid(d);
                vstd::utf8::valid_utf8_concat(g@, d);
                assert(u@ =~= g@ + d);
            }
        }
        Some(utf8_string(up))
    } else {
        None
    }
}

fn is_type_like(raw: &str) -> (r: bool)
    ensures
        r == type_like(raw.spec_bytes()),
{
    let b = raw.as_bytes();
    if b.len() == 0 {
        return false;
    }
    let mut i: usize = 0;
    while i < b.len()
        invariant
            0 <= i <= b@.len(),
            b@ == raw.spec_bytes(),
            forall|j: int|
                0 <= j < i ==> is_alpha(#[trigger] b@[j]) || is_digit(b@[j]) || b@[j] == 45u8,
        decreases b@.len() - i,
    {
        let c = b[i];
        let ok = (c >= 65u8 && c <= 90u8) || (c >= 97u8 && c <= 122u8) || (c >= 48u8 && c <= 57u8)
            || c == 45u8;
        if !ok {
            proof {
                assert(!(is_alpha(b@[i as int]) || is_digit(b@[i as int]) || b@[i as int] == 45u8));
            }
            return false;
        }
        i += 1;
    }
    let c = b[0];
    (c >= 65u8 && c <= 90u8) || (c >= 97u8 && c <= 122u8)
}

/// Which rdata fields hold domain names that should be made absolute.
pub fn name_fields(rtype: &[u8]) -> (r: Vec<usize>)
    ensures
        usizes_view(r@) == name_fields_of(rtype@),
{
    let t = rtype;
    let r: Vec<usize> = if is_text(t, "NS") || is_text(t, "CNAME") || is_text(t, "PTR") || is_text(
        t,
        "DNAME",
    ) || is_text(t, "MB") || is_text(t, "MG") || is_text(t, "MR") || is_text(t, "NSEC") {
        vec![0]
    } else if is_text(t, "MX") || is_text(t, "AFSDB") || is_text(t, "RT") || is_text(t, "KX")
        || is_text(t, "LP") || is_text(t, "SVCB") || is_text(t, "HTTPS") {
        vec![1]
    } else if is_text(t, "SOA") || is_text(t, "RP") || is_text(t, "MINFO") {
        vec![0, 1]
    } else if is_text(t, "PX") {
        vec![1, 2]
    } else if is_text(t, "SRV") {
        vec![3]
    } else if is_text(t, "NAPTR") {
        vec![5]
    } else if is_text(t, "RRSIG") {
        vec![7]
    } else {
        Vec::new()
    };
    proof {
        reveal(name_fields_of);
        assert(usizes_view(r@) =~= name_fields_of(rtype@));
    }
    r
}

pub fn contains_index(v: &Vec<usize>, i: usize) -> (r: bool)
    ensures
        r == usizes_view(v@).contains(i as int),
{
    let mut j: usize = 0;
    while j < v.len()
        invariant
            0 <= j <= v@.len(),
            forall|k: int| 0 <= k < j ==> v@[k] != i,
        decreases v@.len() - j,
    {
        if v[j] == i {
            proof {
                assert(usizes_view(v@)[j as int] == i as int);
            }
            return true;
        }
        j += 1;
    }
    proof {
        if usizes_view(v@).contains(i as int) {
            let k = choose|k: int| 0 <= k < usizes_view(v@).len() && usizes_view(v@)[k] == i as int;
            assert(v@[k] == i);
        }
    }
    false
}

fn rdata_field(token: &Token, is_name: bool, origin: Option<&Name>) -> (r: Result<String, String>)
    ensures
        match rdata_spec(token_view(*token), is_name, opt_bytes(origin)) {
            Some(x) => r matches Ok(s) && string_bytes(&s) == x,
            None => r matches Err(m) && string_bytes(&m) == name_error(token_view(*token).text, opt_bytes(origin)),
        },
{
    if token.quoted {
        let mut s = ascii_string(&[34u8]);
        push_str(&mut s, token.text.as_str());
        push_ascii(&mut s, 34u8);
        proof {
            assert(string_bytes(&s) =~= seq![34u8] + string_bytes(&token.text) + seq![34u8]);
        }
        Ok(s)
    } else if is_name {
        match Name::parse(token.text.as_str(), origin) {
            Ok(n) => Ok(n.into_string()),
            Err(m) => Err(m),
        }
    } else {
        Ok(token.text.clone())
    }
}

pub open spec fn line_view_of(line: &Line) -> LineV {
    crate::lexer::line_view(*line)
}


/// The rdata fields `tokens[first..]` as stored, with the fields at `nf`
/// read as names.
fn rdata_fields(tokens: &Vec<Token>, first: usize, nf: &Vec<usize>, origin: Option<&Name>) -> (r: Result<
    Vec<String>,
    String,
>)
    requires
        first <= tokens@.len(),
    ensures
        match rdata_all(tokens_view(tokens@).skip(first as int), usizes_view(nf@), opt_bytes(origin)) {
            Some(v) => r matches Ok(x) && strings_view(x@) == v,
            None => r matches Err(m) && string_bytes(&m) == rdata_error(
                tokens_view(tokens@).skip(first as int),
                usizes_view(nf@),
                opt_bytes(origin),
                0,
            ),
        },
{
    let ghost fields = tokens_view(tokens@).skip(first as int);
    let ghost nfs = usizes_view(nf@);
    let ghost o = opt_bytes(origin);
    let ntok = tokens.len();
    let nfields = ntok - first;
    let mut rdata: Vec<String> = Vec::new();
    let mut i: usize = 0;
    while i < nfields
        invariant
            0 <= i <= nfields,
            ntok == tokens@.len(),
            first + nfields == tokens@.len(),
            fields == tokens_view(tokens@).skip(first as int),
            fields.len() == nfields,
            nfs == usizes_view(nf@),
            o == opt_bytes(origin),
            forall|j: int| 0 <= j < i ==> #[trigger] rdata_spec(fields[j], nfs.contains(j), o) is Some,
            rdata_error(fields, nfs, o, 0) == rdata_error(fields, nfs, o, i as nat),
            strings_view(rdata@) == Seq::new(i as nat, |j: int| rdata_spec(fields[j], nfs.contains(j), o)->0),
        decreases nfields - i,
    {
        proof {
            assert(fields[i as int] == token_view(tokens@[first + i]));
        }
        let is_name = contains_index(nf, i);
        match rdata_field(&tokens[first + i], is_name, origin) {
            Ok(f) => {
                let ghost prev = rdata@;
                proof {
                    assert(rdata_spec(fields[i as int], nfs.contains(i as int), o) == Some(string_bytes(&f)));
                }
                rdata.push(f);
                proof {
                    assert(strings_view(rdata@) =~= strings_view(prev).push(string_bytes(&f)));
                    assert(strings_view(rdata@) =~= Seq::new(
                        (i + 1) as nat,
                        |j: int| rdata_spec(fields[j], nfs.contains(j), o)->0,
                    ));
                }
            },
            Err(m) => {
                return Err(m);
            },
        }
        i += 1;
    }
    proof {
        assert(Seq::new(nfields as nat, |j: int| rdata_spec(fields[j], nfs.contains(j), o)->0)
            =~= Seq::new(fields.len(), |j: int| rdata_spec(fields[j], nfs.contains(j), o)->0));
    }
    Ok(rdata)
}

/// Reads one entry as a record, updating what later entries inherit.
fn record(line: &Line, state: &mut State) -> (r: Result<Record, String>)
    requires
        line.tokens@.len() > 0,
    ensures
        match record_spec(line_view_of(line), state_view(*old(state))) {
            Some((rec, st)) => r matches Ok(x) && record_view(x) == rec && state_view(*final(state))
                == st,
            None => r matches Err(m) && string_bytes(&m) == record_error(
                line_view_of(line),
                state_view(*old(state)),
            ),
        },
{
    let tokens = &line.tokens;
    let ghost ts = tokens_view(tokens@);
    let ghost st0 = state_view(*state);
    let ghost lv = line_view_of(line);
    proof {
        assert(lv.tokens == ts);
    }
    let mut idx: usize = 0;
    let owner = if line.leading_blank {
        match &state.last_owner {
            Some(o) => o.clone(),
            None => {
                return Err(
                    string_of("record has no owner name and there's no previous one to inherit"),
                );
            },
        }
    } else {
        idx = 1;
        proof {
            assert(ts[0] == token_view(tokens@[0]));
        }
        match Name::parse(tokens[0].text.as_str(), name_ref(&state.origin)) {
            Ok(n) => n,
            Err(m) => {
                return Err(m);
            },
        }
    };
    let ghost start: nat = idx as nat;
    let mut ttl: Option<u32> = None;
    let mut class: Option<String> = None;
    loop
        invariant
            start <= idx <= tokens@.len(),
            ts == tokens_view(tokens@),
            scan_ttl_class(ts, start, None, None) == scan_ttl_class(
                ts,
                idx as nat,
                ttl,
                opt_string(class),
            ),
        ensures
            scan_ttl_class(ts, start, None, None) == (idx as nat, ttl, opt_string(class)),
            idx <= tokens@.len(),
        decreases tokens@.len() - idx,
    {
        if idx >= tokens.len() {
            break;
        }
        let text = tokens[idx].text.as_str();
        proof {
            assert(ts[idx as int] == token_view(tokens@[idx as int]));
        }
        if ttl.is_none() {
            match parse_ttl(text) {
                Some(t) => {
                    ttl = Some(t);
                    idx += 1;
                    continue ;
                },
                None => {},
            }
        }
        if class.is_none() {
            match parse_class(text) {
                Some(c) => {
                    class = Some(c);
                    idx += 1;
                    continue ;
                },
                None => {},
            }
        }
        break;
    }
    if idx >= tokens.len() {
        return Err(string_of("missing record type"));
    }
    let rt_text = tokens[idx].text.as_str();
    let rb = rt_text.as_bytes();
    proof {
        assert(ts[idx as int] == token_view(tokens@[idx as int]));
    }
    // Types start with a letter, so this is a TTL that didn't parse, such
    // as one over 2^31 - 1.
    if rb.len() > 0 && rb[0] >= 48u8 && rb[0] <= 57u8 {
        return Err(prefixed("invalid TTL ", rt_text));
    }
    if !is_type_like(rt_text) {
        return Err(prefixed("expected a record type, found ", rt_text));
    }
    let up = upper_bytes(rb);
    proof {
        assert forall|j: int| 0 <= j < up@.len() implies #[trigger] up@[j] < 0x80 by {
            assert(is_alpha(rb@[j]) || is_digit(rb@[j]) || rb@[j] == 45u8);
        }
    }
    let rtype = ascii_string(up.as_slice());
    let first = idx + 1;
    let nfields = tokens.len() - first;
    let ghost fields = ts.skip(first as int);
    if nfields == 0 {
        let mut m = rtype.clone();
        push_str(&mut m, " record has no data");
        return Err(m);
    }
    proof {
        assert(fields[0] == token_view(tokens@[first as int]));
    }
    // RFC 3597 generic rdata (`\# <len> <hex>`) is opaque, so there are no
    // names to qualify and no SOA fields to read.
    let generic = is_text(tokens[first].text.as_str().as_bytes(), "\\#");
    let soa = is_text(up.as_slice(), "SOA") && !generic;
    if soa {
        if nfields != 7 {
            let found = decimal_string(nfields as u64);
            return Err(prefixed("SOA needs 7 fields, found ", found.as_str()));
        }
        proof {
            assert(fields[6] == token_view(tokens@[first + 6]));
        }
        let min_text = tokens[first + 6].text.as_str();
        let minimum = match parse_ttl(min_text) {
            Some(m) => m,
            None => {
                return Err(prefixed("invalid SOA minimum ", min_text));
            },
        };
        // Like BIND, with no TTL to go on, the SOA minimum becomes the
        // default for this record and the ones after it.
        if ttl.is_none() && state.default_ttl.is_none() && state.last_ttl.is_none() {
            state.default_ttl = Some(minimum);
        }
    }
    let class_final: String = match class {
        Some(c) => {
            state.last_class = Some(c.clone());
            c
        },
        None => match &state.last_class {
            Some(c) => c.clone(),
            None => string_of("IN"),
        },
    };
    if ttl.is_some() {
        state.last_ttl = ttl;
    }
    let ttl_final = match ttl {
        Some(t) => t,
        None => match state.default_ttl {
            Some(t) => t,
            None => match state.last_ttl {
                Some(t) => t,
                None => {
                    return Err(
                        string_of("no TTL given and no $TTL, previous TTL or SOA to fall back on"),
                    );
                },
            },
        },
    };
    let nf: Vec<usize> = if generic {
        Vec::new()
    } else {
        name_fields(up.as_slice())
    };
    let ghost nfs = usizes_view(nf@);
    proof {
        if generic {
            assert(nfs =~= Seq::<int>::empty());
        }
    }
    let rdata = match rdata_fields(tokens, first, &nf, name_ref(&state.origin)) {
        Ok(v) => v,
        Err(m) => {
            return Err(m);
        },
    };
    proof {
        assert(fields == tokens_view(tokens@).skip(first as int));
    }
    state.last_owner = Some(owner.clone());
    Ok(Record { name: owner, ttl: ttl_final, class: class_final, rtype, rdata })
}

/// What a directive entry does.
pub enum DirectiveV {
    /// `$ORIGIN`: the new origin.
    Origin(Seq<u8>),
    /// `$TTL`: the new default TTL.
    Ttl(u32),
    /// `$INCLUDE`: the file, and the state it starts from.
    Include(Seq<u8>, StateV),
}

/// A name given to `$ORIGIN` or `$INCLUDE`. Strictly, a relative name with
/// no origin set is an error, but plenty of real files write
/// `$ORIGIN domain.com` without the dot, so with no origin it's read as
/// absolute.
pub open spec fn directive_origin_spec(raw: Seq<u8>, st: StateV) -> Option<Seq<u8>> {
    parse_name(
        raw,
        Some(
            match st.origin {
                Some(o) => o,
                None => root_bytes(),
            },
        ),
    )
}

/// What a directive entry does, or `None` when it's not a valid one.
pub open spec fn directive_spec(line: LineV, st: StateV) -> Option<DirectiveV> {
    let d = upper_seq(line.tokens[0].text);
    let args = line.tokens.skip(1);
    if d == "$ORIGIN".spec_bytes() {
        if args.len() != 1 {
            None
        } else {
            match directive_origin_spec(args[0].text, st) {
                Some(o) => Some(DirectiveV::Origin(o)),
                None => None,
            }
        }
    } else if d == "$TTL".spec_bytes() {
        if args.len() != 1 {
            None
        } else {
            match ttl_value(args[0].text) {
                Some(t) => Some(DirectiveV::Ttl(t)),
                None => None,
            }
        }
    } else if d == "$INCLUDE".spec_bytes() {
        if args.len() != 1 && args.len() != 2 {
            None
        } else if st.depth >= MAX_INCLUDE_DEPTH {
            None
        } else if args.len() == 2 {
            match directive_origin_spec(args[1].text, st) {
                Some(o) => Some(
                    DirectiveV::Include(
                        args[0].text,
                        StateV { origin: Some(o), depth: st.depth + 1, ..st },
                    ),
                ),
                None => None,
            }
        } else {
            Some(DirectiveV::Include(args[0].text, StateV { depth: st.depth + 1, ..st }))
        }
    } else {
        None
    }
}

/// Why a name given to `$ORIGIN` or `$INCLUDE` is no name.
pub open spec fn directive_origin_error(raw: Seq<u8>, st: StateV) -> Seq<u8> {
    name_error(
        raw,
        Some(
            match st.origin {
                Some(o) => o,
                None => root_bytes(),
            },
        ),
    )
}

/// Why a directive entry is no valid one, where [`directive_spec`] finds
/// none.
pub open spec fn directive_error(line: LineV, st: StateV) -> Seq<u8> {
    let d = upper_seq(line.tokens[0].text);
    let args = line.tokens.skip(1);
    if d == "$ORIGIN".spec_bytes() {
        if args.len() != 1 {
            "$ORIGIN takes one name".spec_bytes()
        } else {
            directive_origin_error(args[0].text, st)
        }
    } else if d == "$TTL".spec_bytes() {
        if args.len() != 1 {
            "$TTL takes one value".spec_bytes()
        } else {
            "invalid TTL ".spec_bytes() + args[0].text
        }
    } else if d == "$INCLUDE".spec_bytes() {
        if args.len() != 1 && args.len() != 2 {
            "$INCLUDE takes a file and an optional origin".spec_bytes()
        } else if st.depth >= MAX_INCLUDE_DEPTH {
            "$INCLUDE nested more than 16 deep, is there a loop?".spec_bytes()
        } else {
            directive_origin_error(args[1].text, st)
        }
    } else {
        "unsupported directive ".spec_bytes() + line.tokens[0].text
    }
}

/// An entry that is a directive: it has an owner field that starts with
/// an unquoted `$`.
pub open spec fn is_directive(line: LineV) -> bool {
    !line.leading_blank && !line.tokens[0].quoted && line.tokens[0].text.len() > 0
        && line.tokens[0].text[0] == 36u8
}

/// What a directive does, as values.
pub enum Directive {
    Origin(Name),
    Ttl(u32),
    Include(String, State),
}

pub open spec fn directive_view(d: Directive) -> DirectiveV {
    match d {
        Directive::Origin(n) => DirectiveV::Origin(n@),
        Directive::Ttl(t) => DirectiveV::Ttl(t),
        Directive::Include(f, s) => DirectiveV::Include(string_bytes(&f), state_view(s)),
    }
}

/// Resolves a name given to `$ORIGIN` or `$INCLUDE`.
fn directive_origin(raw: &str, state: &State) -> (r: Result<Name, String>)
    ensures
        match directive_origin_spec(raw.spec_bytes(), state_view(*state)) {
            Some(o) => r matches Ok(n) && n@ == o,
            None => r matches Err(m) && string_bytes(&m) == directive_origin_error(
                raw.spec_bytes(),
                state_view(*state),
            ),
        },
{
    let root = Name::root();
    match &state.origin {
        Some(o) => Name::parse(raw, Some(o)),
        None => Name::parse(raw, Some(&root)),
    }
}

/// Reads a directive entry.
fn directive(line: &Line, state: &State) -> (r: Result<Directive, String>)
    requires
        line.tokens@.len() > 0,
    ensures
        match directive_spec(line_view_of(line), state_view(*state)) {
            Some(d) => r matches Ok(x) && directive_view(x) == d,
            None => r matches Err(m) && string_bytes(&m) == directive_error(
                line_view_of(line),
                state_view(*state),
            ),
        },
{
    let tokens = &line.tokens;
    let ghost ts = tokens_view(tokens@);
    proof {
        assert(line_view_of(line).tokens == ts);
        assert(ts[0] == token_view(tokens@[0]));
        if ts.len() > 1 {
            assert(ts.skip(1)[0] == token_view(tokens@[1]));
        }
        if ts.len() > 2 {
            assert(ts.skip(1)[1] == token_view(tokens@[2]));
        }
    }
    let head = tokens[0].text.as_str();
    let d = upper_bytes(head.as_bytes());
    let nargs = tokens.len() - 1;
    if is_text(d.as_slice(), "$ORIGIN") {
        if nargs != 1 {
            return Err(string_of("$ORIGIN takes one name"));
        }
        match directive_origin(tokens[1].text.as_str(), state) {
            Ok(o) => Ok(Directive::Origin(o)),
            Err(m) => Err(m),
        }
    } else if is_text(d.as_slice(), "$TTL") {
        if nargs != 1 {
            return Err(string_of("$TTL takes one value"));
        }
        let raw = tokens[1].text.as_str();
        match parse_ttl(raw) {
            Some(t) => Ok(Directive::Ttl(t)),
            None => Err(prefixed("invalid TTL ", raw)),
        }
    } else if is_text(d.as_slice(), "$INCLUDE") {
        if nargs != 1 && nargs != 2 {
            return Err(string_of("$INCLUDE takes a file and an optional origin"));
        }
        if state.depth >= MAX_INCLUDE_DEPTH {
            return Err(string_of("$INCLUDE nested more than 16 deep, is there a loop?"));
        }
        // The included file works on a copy, so nothing it does leaks
        // back into this one.
        let mut child = state.copy();
        child.depth = child.depth + 1;
        if nargs == 2 {
            match directive_origin(tokens[2].text.as_str(), state) {
                Ok(o) => {
                    child.origin = Some(o);
                },
                Err(m) => {
                    return Err(m);
                },
            }
        }
        Ok(Directive::Include(tokens[1].text.clone(), child))
    } else {
        Err(prefixed("unsupported directive ", head))
    }
}

#[derive(Debug)]
pub struct Zone {
    /// The zone's apex: the owner of the first SOA, falling back to the
    /// first top-level `$ORIGIN` and then `--origin`. BIND writes its zone
    /// files starting with `$ORIGIN .`, so the SOA is the better guide.
    pub origin: Option<Name>,
    pub records: Vec<Record>,
}

pub struct ZoneV {
    pub origin: Option<Seq<u8>>,
    pub records: Seq<RecordV>,
}

pub open spec fn zone_view(z: Zone) -> ZoneV {
    ZoneV { origin: opt_name(z.origin), records: records_view(z.records@) }
}

/// The owner of the first SOA record.
pub open spec fn first_soa(rs: Seq<RecordV>) -> Option<Seq<u8>>
    decreases rs.len(),
{
    if rs.len() == 0 {
        None
    } else if rs[0].rtype == "SOA".spec_bytes() {
        Some(rs[0].name)
    } else {
        first_soa(rs.drop_first())
    }
}

/// The apex of a parsed zone.
pub open spec fn zone_origin(rs: Seq<RecordV>, first_origin: Option<Seq<u8>>, fallback: Option<Seq<u8>>) -> Option<Seq<u8>> {
    if first_soa(rs) is Some {
        first_soa(rs)
    } else if first_origin is Some {
        first_origin
    } else {
        fallback
    }
}

/// One file being read.
pub struct FrameV {
    pub source: Seq<u8>,
    pub lines: Seq<LineV>,
    pub next: nat,
    pub state: StateV,
}

/// Where the reading of a zone stands.
pub struct ParserV {
    pub records: Seq<RecordV>,
    /// The first `$ORIGIN` of the top-level file.
    pub first_origin: Option<Seq<u8>>,
    /// The origin to fall back on.
    pub fallback: Option<Seq<u8>>,
    /// The files being read, the innermost last.
    pub frames: Seq<FrameV>,
    /// The state an `$INCLUDE` asked for starts from, until its text comes.
    pub pending: Option<StateV>,
}

pub enum StepV {
    Continue(ParserV),
    /// An `$INCLUDE` on line `line` of `from` asks for `file`.
    Include(ParserV, Seq<u8>, Seq<u8>, nat),
    Done(ParserV),
    /// Line `line` of `source` doesn't parse, for the reason given.
    Fail(Seq<u8>, nat, Seq<u8>),
}

/// Reading one more entry, or leaving a finished file.
#[verifier::opaque]
pub open spec fn parser_step(p: ParserV) -> StepV {
    if p.frames.len() == 0 {
        StepV::Done(p)
    } else {
        let k = p.frames.len() - 1;
        let f = p.frames[k];
        if f.next >= f.lines.len() {
            StepV::Continue(ParserV { frames: p.frames.drop_last(), ..p })
        } else {
            let line = f.lines[f.next as int];
            let adv = FrameV { next: f.next + 1, ..f };
            if line.tokens.len() == 0 {
                StepV::Continue(ParserV { frames: p.frames.update(k, adv), ..p })
            } else if is_directive(line) {
                match directive_spec(line, f.state) {
                    None => StepV::Fail(f.source, line.number, directive_error(line, f.state)),
                    Some(DirectiveV::Origin(o)) => StepV::Continue(
                        ParserV {
                            frames: p.frames.update(
                                k,
                                FrameV { state: StateV { origin: Some(o), ..f.state }, ..adv },
                            ),
                            first_origin: if f.state.depth == 0 && p.first_origin is None {
                                Some(o)
                            } else {
                                p.first_origin
                            },
                            ..p
                        },
                    ),
                    Some(DirectiveV::Ttl(t)) => StepV::Continue(
                        ParserV {
                            frames: p.frames.update(
                                k,
                                FrameV { state: StateV { default_ttl: Some(t), ..f.state }, ..adv },
                            ),
                            ..p
                        },
                    ),
                    Some(DirectiveV::Include(file, child)) => StepV::Include(
                        ParserV { frames: p.frames.update(k, adv), pending: Some(child), ..p },
                        f.source,
                        file,
                        line.number,
                    ),
                }
            } else {
                match record_spec(line, f.state) {
                    None => StepV::Fail(f.source, line.number, record_error(line, f.state)),
                    Some((r, st)) => StepV::Continue(
                        ParserV {
                            records: p.records.push(r),
                            frames: p.frames.update(k, FrameV { state: st, ..adv }),
                            ..p
                        },
                    ),
                }
            }
        }
    }
}

/// How much reading is left: the entries not yet read, and the files.
pub open spec fn work_left(frames: Seq<FrameV>) -> nat
    decreases frames.len(),
{
    if frames.len() == 0 {
        0
    } else {
        let f = frames.last();
        work_left(frames.drop_last()) + 1 + if f.next < f.lines.len() {
            (f.lines.len() - f.next) as nat
        } else {
            0
        }
    }
}

pub proof fn lemma_step_makes_progress(p: ParserV)
    ensures
        parser_step(p) matches StepV::Continue(q) ==> work_left(q.frames) < work_left(p.frames),
{
    reveal(parser_step);
    if p.frames.len() > 0 {
        let k = p.frames.len() - 1;
        let f = p.frames[k];
        if f.next < f.lines.len() {
            let line = f.lines[f.next as int];
            if let StepV::Continue(q) = parser_step(p) {
                assert(q.frames.len() == p.frames.len());
                assert(q.frames.drop_last() =~= p.frames.drop_last());
                assert(q.frames.last().next == f.next + 1);
                assert(q.frames.last().lines == f.lines);
            }
        }
    }
}

/// Reading an entry only touches the file being read: the files that
/// `$INCLUDE`d it keep their frames, state included, so nothing an
/// included file does leaks back into the file that named it.
pub proof fn lemma_step_keeps_outer_files(p: ParserV)
    ensures
        parser_step(p) matches StepV::Continue(q) ==> q.frames.len() <= p.frames.len() && forall|j: int|
            0 <= j < p.frames.len() - 1 ==> #[trigger] q.frames[j] == p.frames[j],
        parser_step(p) matches StepV::Include(q, _, _, _) ==> q.frames.len() == p.frames.len()
            && forall|j: int| 0 <= j < p.frames.len() - 1 ==> #[trigger] q.frames[j] == p.frames[j],
{
    reveal(parser_step);
}

/// How reading without following includes ends.
pub enum RunV {
    Finished(ParserV),
    /// Line `line` of `source` doesn't parse, for the reason given.
    Failed(Seq<u8>, nat, Seq<u8>),
    /// An `$INCLUDE` on line `line` of `from`.
    IncludeHit(Seq<u8>, nat),
}

/// Steps until the reading ends, fails, or meets an `$INCLUDE`.
pub open spec fn run_parser(p: ParserV) -> RunV
    decreases work_left(p.frames),
{
    match parser_step(p) {
        StepV::Continue(q) => if work_left(q.frames) < work_left(p.frames) {
            run_parser(q)
        } else {
            RunV::Failed(Seq::empty(), 0, Seq::empty())
        },
        StepV::Include(_, from, _, line) => RunV::IncludeHit(from, line),
        StepV::Done(q) => RunV::Finished(q),
        StepV::Fail(src, line, m) => RunV::Failed(src, line, m),
    }
}

/// The reading of `lines` from `source` about to start.
pub open spec fn parser_start(source: Seq<u8>, lines: Seq<LineV>, fallback: Option<Seq<u8>>) -> ParserV {
    ParserV {
        records: Seq::empty(),
        first_origin: None,
        fallback,
        frames: seq![
            FrameV {
                source,
                lines,
                next: 0,
                state: StateV {
                    origin: fallback,
                    default_ttl: None,
                    last_ttl: None,
                    last_class: None,
                    last_owner: None,
                    depth: 0,
                },
            },
        ],
        pending: None,
    }
}

/// The zone in `input`, read as `source`, or where it fails: the file, the
/// line and why. An `$INCLUDE` fails here, on its own line, since following
/// it needs the file system.
pub open spec fn parse_str_spec(input: Seq<u8>, source: Seq<u8>, fallback: Option<Seq<u8>>) -> Result<ZoneV, (Seq<u8>, nat, Seq<u8>)> {
    match tokenise_spec(input) {
        Err((l, f)) => Err((source, l, encode_utf8(fault_message(f)))),
        Ok(lines) => match run_parser(parser_start(source, lines, fallback)) {
            RunV::Finished(q) => Ok(
                ZoneV {
                    origin: zone_origin(q.records, q.first_origin, q.fallback),
                    records: q.records,
                },
            ),
            RunV::Failed(s, l, m) => Err((s, l, m)),
            RunV::IncludeHit(s, l) => Err((s, l, "$INCLUDE is only followed when reading from a file".spec_bytes())),
        },
    }
}

/// `e` is a parse error on line `line` of `source`, with message `m`.
pub open spec fn parse_error_at(e: Error, source: Seq<u8>, line: nat, m: Seq<u8>) -> bool {
    e matches Error::Parse { path, line: l, message } && string_bytes(&path) == source && l == line
        && string_bytes(&message) == m
}

struct Frame {
    source: String,
    lines: Vec<Line>,
    next: usize,
    state: State,
}

spec fn frame_view(f: Frame) -> FrameV {
    FrameV {
        source: string_bytes(&f.source),
        lines: lines_view(f.lines@),
        next: f.next as nat,
        state: state_view(f.state),
    }
}

spec fn frames_view(fs: Seq<Frame>) -> Seq<FrameV> {
    fs.map_values(|f: Frame| frame_view(f))
}

/// An `$INCLUDE` asking for a file: `file` as written on line `line` of
/// `from`, which paths are relative to.
#[derive(Debug)]
pub struct IncludeRequest {
    pub from: String,
    pub file: String,
    pub line: usize,
}

/// What reading one more entry came to.
#[derive(Debug)]
pub enum Step {
    Continue,
    /// The text of this file is needed to go on, through
    /// [`ZoneParser::enter_file`].
    Include(IncludeRequest),
    Done,
}

/// Reads a zone an entry at a time, stopping to ask for the text of each
/// `$INCLUDE`d file.
pub struct ZoneParser {
    records: Vec<Record>,
    first_origin: Option<Name>,
    fallback: Option<Name>,
    frames: Vec<Frame>,
    pending: Option<State>,
}

impl View for ZoneParser {
    type V = ParserV;

    closed spec fn view(&self) -> ParserV {
        ParserV {
            records: records_view(self.records@),
            first_origin: opt_name(self.first_origin),
            fallback: opt_name(self.fallback),
            frames: frames_view(self.frames@),
            pending: match self.pending {
                Some(s) => Some(state_view(s)),
                None => None,
            },
        }
    }
}

fn error_at(source: &String, line: usize, message: String) -> (e: Error)
    ensures
        parse_error_at(e, string_bytes(source), line as nat, string_bytes(&message)),
{
    Error::parse(source.as_str(), line, message)
}

/// The owner of the first SOA record.
fn first_soa_owner(rs: &Vec<Record>) -> (r: Option<Name>)
    ensures
        opt_name(r) == first_soa(records_view(rs@)),
{
    let ghost all = records_view(rs@);
    let mut i: usize = 0;
    proof {
        assert(all.skip(0) =~= all);
    }
    while i < rs.len()
        invariant
            0 <= i <= rs@.len(),
            all == records_view(rs@),
            first_soa(all) == first_soa(all.skip(i as int)),
        decreases rs@.len() - i,
    {
        proof {
            assert(all.skip(i as int)[0] == record_view(rs@[i as int]));
            assert(all.skip(i as int).drop_first() =~= all.skip(i + 1));
        }
        if is_text(rs[i].rtype.as_str().as_bytes(), "SOA") {
            return Some(rs[i].name.clone());
        }
        i += 1;
    }
    proof {
        assert(all.skip(i as int) =~= Seq::<RecordV>::empty());
    }
    None
}

impl ZoneParser {
    /// Starts reading `input`, read from `source`, with `origin` as the
    /// origin until the text sets its own.
    pub fn new(input: &str, source: &str, origin: Option<Name>) -> (r: Result<ZoneParser, Error>)
        requires
            input.spec_bytes().len() < usize::MAX,
        ensures
            match tokenise_spec(input.spec_bytes()) {
                Ok(lines) => r matches Ok(p) && p@ == parser_start(
                    source.spec_bytes(),
                    lines,
                    opt_name(origin),
                ),
                Err((l, f)) => r matches Err(e) && parse_error_at(e, source.spec_bytes(), l, encode_utf8(fault_message(f))),
            },
    {
        let source = string_of(source);
        let lines = match tokenise(input) {
            Ok(ls) => ls,
            Err(e) => {
                return Err(error_at(&source, e.line, e.message));
            },
        };
        let fallback = clone_opt_name(&origin);
        let frame = Frame { source, lines, next: 0, state: State::new(origin) };
        let mut frames: Vec<Frame> = Vec::new();
        frames.push(frame);
        let p = ZoneParser {
            records: Vec::new(),
            first_origin: None,
            fallback,
            frames,
            pending: None,
        };
        proof {
            assert(records_view(p.records@) =~= Seq::<RecordV>::empty());
            assert(frames_view(p.frames@) =~= seq![frame_view(frame)]);
        }
        Ok(p)
    }

    /// Reads one more entry, or leaves a file that's done.
    pub fn step(&mut self) -> (r: Result<Step, Error>)
        ensures
            match parser_step(old(self)@) {
                StepV::Continue(q) => r matches Ok(Step::Continue) && final(self)@ == q,
                StepV::Include(q, from, file, line) => r matches Ok(Step::Include(req))
                    && final(self)@ == q && string_bytes(&req.from) == from && string_bytes(
                    &req.file,
                ) == file && req.line == line,
                StepV::Done(q) => r matches Ok(Step::Done) && final(self)@ == q,
                StepV::Fail(src, line, m) => r matches Err(e) && parse_error_at(e, src, line, m),
            },
    {
        proof {
            reveal(parser_step);
        }
        let ghost p = self@;
        let mut f = match self.frames.pop() {
            Some(f) => f,
            None => {
                return Ok(Step::Done);
            },
        };
        let ghost k = p.frames.len() - 1;
        proof {
            assert(frames_view(self.frames@) =~= p.frames.drop_last());
            assert(frame_view(f) == p.frames[k]);
        }
        if f.next >= f.lines.len() {
            return Ok(Step::Continue);
        }
        let at = f.next;
        f.next = at + 1;
        let line = &f.lines[at];
        proof {
            assert(lines_view(f.lines@)[at as int] == crate::lexer::line_view(*line));
        }
        if line.tokens.len() == 0 {
            self.frames.push(f);
            proof {
                assert(frames_view(self.frames@) =~= p.frames.update(k, frame_view(f)));
            }
            return Ok(Step::Continue);
        }
        let first = &line.tokens[0];
        let fb = first.text.as_str().as_bytes();
        proof {
            assert(tokens_view(line.tokens@)[0] == token_view(*first));
        }
        let is_dir = !line.leading_blank && !first.quoted && fb.len() > 0 && fb[0] == 36u8;
        if is_dir {
            match directive(line, &f.state) {
                Err(m) => Err(error_at(&f.source, line.number, m)),
                Ok(Directive::Origin(o)) => {
                    if f.state.depth == 0 && self.first_origin.is_none() {
                        self.first_origin = Some(o.clone());
                    }
                    f.state.origin = Some(o);
                    self.frames.push(f);
                    proof {
                        assert(frames_view(self.frames@) =~= p.frames.update(k, frame_view(f)));
                    }
                    Ok(Step::Continue)
                },
                Ok(Directive::Ttl(t)) => {
                    f.state.default_ttl = Some(t);
                    self.frames.push(f);
                    proof {
                        assert(frames_view(self.frames@) =~= p.frames.update(k, frame_view(f)));
                    }
                    Ok(Step::Continue)
                },
                Ok(Directive::Include(file, child)) => {
                    let from = f.source.clone();
                    let number = line.number;
                    self.pending = Some(child);
                    self.frames.push(f);
                    proof {
                        assert(frames_view(self.frames@) =~= p.frames.update(k, frame_view(f)));
                    }
                    Ok(Step::Include(IncludeRequest { from, file, line: number }))
                },
            }
        } else {
            match record(line, &mut f.state) {
                Ok(rec) => {
                    let ghost prev = self.records@;
                    self.records.push(rec);
                    self.frames.push(f);
                    proof {
                        assert(records_view(self.records@) =~= records_view(prev).push(
                            record_view(rec),
                        ));
                        assert(frames_view(self.frames@) =~= p.frames.update(k, frame_view(f)));
                    }
                    Ok(Step::Continue)
                },
                Err(m) => Err(error_at(&f.source, line.number, m)),
            }
        }
    }

    /// Goes on with the text of the file the last `$INCLUDE` asked for,
    /// read from `path`.
    pub fn enter_file(&mut self, path: &str, input: &str) -> (r: Result<(), Error>)
        requires
            old(self)@.pending is Some,
            input.spec_bytes().len() < usize::MAX,
        ensures
            match tokenise_spec(input.spec_bytes()) {
                Ok(lines) => r is Ok && final(self)@ == (ParserV {
                    frames: old(self)@.frames.push(
                        FrameV {
                            source: path.spec_bytes(),
                            lines,
                            next: 0,
                            state: old(self)@.pending->0,
                        },
                    ),
                    pending: None,
                    ..old(self)@
                }),
                Err((l, f)) => r matches Err(e) && parse_error_at(e, path.spec_bytes(), l, encode_utf8(fault_message(f))),
            },
    {
        let source = string_of(path);
        let lines = match tokenise(input) {
            Ok(ls) => ls,
            Err(e) => {
                return Err(error_at(&source, e.line, e.message));
            },
        };
        let mut pending: Option<State> = None;
        std::mem::swap(&mut pending, &mut self.pending);
        let state = match pending {
            Some(st) => st,
            None => State::new(None),
        };
        let ghost prev = self.frames@;
        let frame = Frame { source, lines, next: 0, state };
        self.frames.push(frame);
        proof {
            assert(frames_view(self.frames@) =~= frames_view(prev).push(frame_view(frame)));
        }
        Ok(())
    }

    /// The zone read so far.
    pub fn finish(self) -> (z: Zone)
        ensures
            zone_view(z) == (ZoneV {
                origin: zone_origin(self@.records, self@.first_origin, self@.fallback),
                records: self@.records,
            }),
    {
        let soa = first_soa_owner(&self.records);
        let origin = match soa {
            Some(n) => Some(n),
            None => match self.first_origin {
                Some(n) => Some(n),
                None => self.fallback,
            },
        };
        Zone { origin, records: self.records }
    }
}

/// Parses zone text. `source` is used in error messages.
///
/// Following an `$INCLUDE` needs the file system, which [`ZoneParser`]
/// leaves to its caller; here an `$INCLUDE` is an error on its line.
pub fn parse_str(input: &str, source: &str, origin: Option<Name>) -> (r: Result<Zone, Error>)
    requires
        input.spec_bytes().len() < usize::MAX,
    ensures
        match parse_str_spec(input.spec_bytes(), source.spec_bytes(), opt_name(origin)) {
            Ok(z) => r matches Ok(x) && zone_view(x) == z,
            Err((s, l, m)) => r matches Err(e) && parse_error_at(e, s, l, m),
        },
{
    let ghost fallback = opt_name(origin);
    let mut p = match ZoneParser::new(input, source, origin) {
        Ok(p) => p,
        Err(e) => {
            return Err(e);
        },
    };
    let ghost start = p@;
    loop
        invariant
            tokenise_spec(input.spec_bytes()) is Ok,
            fallback == opt_name(origin),
            start == parser_start(source.spec_bytes(), tokenise_spec(input.spec_bytes())->Ok_0, fallback),
            run_parser(p@) == run_parser(start),
        decreases work_left(p@.frames),
    {
        let ghost before = p@;
        proof {
            lemma_step_makes_progress(before);
        }
        let res = p.step();
        proof {
            match parser_step(before) {
                StepV::Continue(q) => {
                    assert(run_parser(before) == run_parser(q));
                },
                StepV::Include(q, from, file, line) => {
                    assert(run_parser(before) == RunV::IncludeHit(from, line));
                },
                StepV::Done(q) => {
                    assert(run_parser(before) == RunV::Finished(q));
                },
                StepV::Fail(src, line, m) => {
                    assert(run_parser(before) == RunV::Failed(src, line, m));
                },
            }
        }
        match res {
            Err(e) => {
                return Err(e);
            },
            Ok(Step::Continue) => {},
            Ok(Step::Include(req)) => {
                return Err(
                    error_at(
                        &req.from,
                        req.line,
                        string_of("$INCLUDE is only followed when reading from a file"),
                    ),
                );
            },
            Ok(Step::Done) => {
                return Ok(p.finish());
            },
        }
    }
}

/// A byte as a `\DDD` escape's three digits.
pub open spec fn three_digits(b: u8) -> Seq<u8> {
    seq![(48 + b / 100) as u8, (48 + (b / 10) % 10) as u8, (48 + b % 10) as u8]
}

/// `rest` appended to `out`, with every byte that doesn't start or belong
/// to a valid UTF-8 character written as a `\DDD` escape. After an
/// unescaped backslash the digits alone finish the escape.
pub open spec fn escape_invalid(out: Seq<u8>, rest: Seq<u8>) -> Seq<u8>
    decreases rest.len(),
{
    if rest.len() == 0 {
        out
    } else if valid_first_scalar(rest) && 0 < length_of_first_scalar(rest) <= rest.len() {
        let k = length_of_first_scalar(rest);
        escape_invalid(out + rest.take(k), rest.skip(k))
    } else {
        let esc = if trailing_backslashes(out) % 2 == 0 {
            seq![92u8]
        } else {
            Seq::empty()
        };
        escape_invalid(out + esc + three_digits(rest[0]), rest.skip(1))
    }
}

/// Zone file bytes as text: valid UTF-8 stays as it is, and anything else
/// becomes a `\DDD` escape, which means the same octet.
pub open spec fn decode_spec(b: Seq<u8>) -> Seq<u8> {
    if valid_utf8(b) {
        b
    } else {
        escape_invalid(Seq::empty(), b)
    }
}

/// How long the UTF-8 character starting at `b[i]` is, if one does.
fn first_scalar_len(b: &[u8], i: usize) -> (r: Option<usize>)
    requires
        i < b@.len(),
    ensures
        r matches Some(k) ==> valid_first_scalar(b@.skip(i as int)) && k == length_of_first_scalar(
            b@.skip(i as int),
        ) && 0 < k <= b@.len() - i,
        r is None ==> !valid_first_scalar(b@.skip(i as int)),
{
    let ghost s = b@.skip(i as int);
    let n = b.len() - i;
    let b0 = b[i];
    proof {
        assert(s[0] == b0);
    }
    if b0 <= 0x7f {
        return Some(1);
    }
    if b0 >= 0xc0 && b0 <= 0xdf {
        if n < 2 || !(b[i + 1] >= 0x80 && b[i + 1] <= 0xbf) {
            return None;
        }
        let b1 = b[i + 1];
        proof {
            assert(s[1] == b1);
        }
        let cp: u32 = (((b0 & 0x1F) as u32) << 6) | ((b1 & 0x3F) as u32);
        proof {
            assert(decode_first_codepoint(s) == cp);
        }
        if cp >= 0x80 && !(cp >= 0xD800 && cp <= 0xDFFF) {
            return Some(2);
        }
        return None;
    }
    if b0 >= 0xe0 && b0 <= 0xef {
        if n < 3 || !(b[i + 1] >= 0x80 && b[i + 1] <= 0xbf) || !(b[i + 2] >= 0x80 && b[i + 2]
            <= 0xbf) {
            return None;
        }
        let b1 = b[i + 1];
        let b2 = b[i + 2];
        proof {
            assert(s[1] == b1);
            assert(s[2] == b2);
        }
        let cp: u32 = (((b0 & 0x0F) as u32) << 12) | (((b1 & 0x3F) as u32) << 6) | ((b2 & 0x3F) as u32);
        proof {
            assert(decode_first_codepoint(s) == cp);
        }
        if cp >= 0x800 && !(cp >= 0xD800 && cp <= 0xDFFF) {
            return Some(3);
        }
        return None;
    }
    if b0 >= 0xf0 && b0 <= 0xf7 {
        if n < 4 || !(b[i + 1] >= 0x80 && b[i + 1] <= 0xbf) || !(b[i + 2] >= 0x80 && b[i + 2]
            <= 0xbf) || !(b[i + 3] >= 0x80 && b[i + 3] <= 0xbf) {
            return None;
        }
        let b1 = b[i + 1];
        let b2 = b[i + 2];
        let b3 = b[i + 3];
        proof {
            assert(s[1] == b1);
            assert(s[2] == b2);
            assert(s[3] == b3);
        }
        let cp: u32 = (((b0 & 0x07) as u32) << 18) | (((b1 & 0x3F) as u32) << 12) | (((b2
            & 0x3F) as u32) << 6) | ((b3 & 0x3F) as u32);
        proof {
            assert(decode_first_codepoint(s) == cp);
        }
        if cp >= 0x10000 && cp <= 0x10ffff && !(cp >= 0xD800 && cp <= 0xDFFF) {
            return Some(4);
        }
        return None;
    }
    None
}

proof fn lemma_scalar_valid(s: Seq<u8>)
    requires
        valid_first_scalar(s),
        0 < length_of_first_scalar(s) <= s.len(),
    ensures
        valid_utf8(s.take(length_of_first_scalar(s))),
{
    let k = length_of_first_scalar(s);
    let t = s.take(k);
    assert(valid_first_scalar(t));
    assert(pop_first_scalar(t) =~= Seq::<u8>::empty());
    reveal_with_fuel(valid_utf8, 2);
}

/// Zone files are octets, not UTF-8. Anything that isn't valid UTF-8
/// becomes a `\DDD` escape, which means the same octet, so a stray
/// Latin-1 byte in a comment or TXT record doesn't sink the whole file.
pub fn decode(bytes: Vec<u8>) -> (s: String)
    ensures
        string_bytes(&s) == decode_spec(bytes@),
{
    let b = bytes.as_slice();
    let mut out: Vec<u8> = Vec::new();
    let mut i: usize = 0;
    proof {
        assert(b@.skip(0) =~= b@);
        assert(valid_utf8(out@));
    }
    while i < b.len()
        invariant
            0 <= i <= b@.len(),
            valid_utf8(out@),
            escape_invalid(Seq::empty(), b@) == escape_invalid(out@, b@.skip(i as int)),
        decreases b@.len() - i,
    {
        let ghost rest = b@.skip(i as int);
        let ghost prev = out@;
        match first_scalar_len(b, i) {
            Some(k) => {
                let mut j: usize = 0;
                let blen = b.len();
                while j < k
                    invariant
                        0 <= j <= k,
                        blen == b@.len(),
                        i + k <= b@.len(),
                        out@ == prev + b@.subrange(i as int, i + j),
                    decreases k - j,
                {
                    out.push(b[i + j]);
                    proof {
                        assert(out@ =~= prev + b@.subrange(i as int, i + j + 1));
                    }
                    j += 1;
                }
                proof {
                    assert(rest.take(k as int) =~= b@.subrange(i as int, i + k));
                    assert(rest.skip(k as int) =~= b@.skip(i + k));
                    lemma_scalar_valid(rest);
                    vstd::utf8::valid_utf8_concat(prev, rest.take(k as int));
                }
                i = i + k;
            },
            None => {
                let n = out.len();
                let tb = count_trailing_backslashes(out.as_slice(), n);
                proof {
                    assert(out@.take(n as int) =~= out@);
                }
                let ghost mid = out@;
                if tb % 2 == 0 {
                    out.push(92u8);
                }
                let c = b[i];
                out.push(48u8 + c / 100);
                out.push(48u8 + (c / 10) % 10);
                out.push(48u8 + c % 10);
                proof {
                    let esc: Seq<u8> = if tb % 2 == 0 {
                        seq![92u8]
                    } else {
                        Seq::empty()
                    };
                    assert(rest[0] == c);
                    assert(out@ =~= prev + esc + three_digits(c));
                    assert(rest.skip(1) =~= b@.skip(i + 1));
                    let added = esc + three_digits(c);
                    assert forall|q: int| 0 <= q < added.len() implies #[trigger] added[q] < 0x80 by {}
                    lemma_ascii_valid(added);
                    vstd::utf8::valid_utf8_concat(prev, added);
                    assert(prev + esc + three_digits(c) =~= prev + added);
                }
                i = i + 1;
            },
        }
    }
    proof {
        assert(b@.skip(i as int) =~= Seq::<u8>::empty());
    }
    match crate::text::string_from_utf8(bytes) {
        Some(s) => s,
        None => utf8_string(out),
    }
}

} // verus!
