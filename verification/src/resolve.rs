//! Answering a question the way the zone's authoritative server would:
//! RFC 1034 § 4.3.2, with RFC 4592 for wildcards.
//!
//! The answer is stated by [`resolve_from`], over the zone's records as
//! plain values: who owns a name ([`owned_by_key`]), which names exist
//! ([`name_exists`]), where the zone is cut ([`cut_of`]) and which wildcard
//! covers a name ([`encloser`]).

use vstd::prelude::*;
use vstd::string::*;
use crate::error::Error;
use crate::name::{
    Name, name_key, at_or_below, parent_of, wildcard_of, parse_name, root_bytes,
    ends_with_unescaped_dot, ends_with_unescaped_dot_str, lemma_first_dot, name_labels,
    has_empty_label, is_name, lemma_parse_gives_absolute, name_error, lemma_no_leading_dot, lemma_absolute_parses_as_itself,
};
use crate::text::{string_bytes, eq_ignore_case, upper_seq, lower_seq, bytes_eq_ignore_case, bytes_equal, message, string_of};
use crate::zone::{Record, RecordV, Zone, record_view, records_view, strings_view, opt_name};
use crate::types_want;
use crate::query::names_view;
use crate::reprint::lemma_parsed_records;
use crate::zone::parse_str_spec;

verus! {

/// The most CNAMEs to follow in one answer, the same as BIND.
pub const MAX_CHAIN: usize = 16;

/// How an answer ended, like a response code with a bit more detail.
#[derive(Clone, Copy, Debug, PartialEq, Eq, Structural)]
pub enum Outcome {
    /// The records asked for. A CNAME chain that leaves the zone ends here
    /// too, with only the CNAMEs, since the rest is another server's job.
    Answer,
    /// The name is at or below a delegation, so the answer is the NS
    /// records at the cut and any glue for them.
    Referral,
    /// The name exists but has none of the types asked for.
    NoData,
    /// The name doesn't exist.
    NxDomain,
    /// The CNAME chain came back on itself, or ran past [`MAX_CHAIN`].
    Loop,
}

#[derive(Debug)]
pub struct Response {
    /// The CNAMEs followed, in order, then the answer or referral.
    pub records: Vec<Record>,
    pub outcome: Outcome,
}

/// An answer as plain values.
pub struct AnswerV {
    pub records: Seq<RecordV>,
    pub outcome: Outcome,
}

pub open spec fn response_view(r: Response) -> AnswerV {
    AnswerV { records: records_view(r.records@), outcome: r.outcome }
}

pub open spec fn ns_type() -> Seq<u8> {
    seq![78u8, 83u8]
}

pub open spec fn cname_type() -> Seq<u8> {
    seq![67u8, 78u8, 65u8, 77u8, 69u8]
}

pub open spec fn ds_type() -> Seq<u8> {
    seq![68u8, 83u8]
}

/// A and AAAA, the types that glue is made of.
pub open spec fn is_address_type(t: Seq<u8>) -> bool {
    eq_ignore_case(t, seq![65u8]) || eq_ignore_case(t, seq![65u8, 65u8, 65u8, 65u8])
}

/// A record the zone answers for: its owner is at or below the apex.
pub open spec fn in_zone(r: RecordV, apex: Seq<u8>) -> bool {
    at_or_below(r.name, apex)
}

/// The zone's records whose owner has the key `k`, in zone order.
pub open spec fn owned_by_key(rs: Seq<RecordV>, apex: Seq<u8>, k: Seq<u8>) -> Seq<RecordV>
    decreases rs.len(),
{
    if rs.len() == 0 {
        Seq::empty()
    } else {
        let prev = owned_by_key(rs.drop_last(), apex, k);
        if in_zone(rs.last(), apex) && name_key(rs.last().name) == k {
            prev.push(rs.last())
        } else {
            prev
        }
    }
}

/// A name exists when it is the apex or some record of the zone is at or
/// below it; a name with no records of its own but names below it is an
/// empty non-terminal.
pub open spec fn name_exists(rs: Seq<RecordV>, apex: Seq<u8>, n: Seq<u8>) -> bool {
    name_key(n) == name_key(apex) || exists|i: int|
        0 <= i < rs.len() && in_zone(#[trigger] rs[i], apex) && at_or_below(rs[i].name, n)
}

/// Some record has type `t`, ignoring case.
pub open spec fn has_type(rs: Seq<RecordV>, t: Seq<u8>) -> bool {
    exists|i: int| 0 <= i < rs.len() && eq_ignore_case((#[trigger] rs[i]).rtype, t)
}

/// The records of type `t`, ignoring case, in order.
pub open spec fn of_type(rs: Seq<RecordV>, t: Seq<u8>) -> Seq<RecordV>
    decreases rs.len(),
{
    if rs.len() == 0 {
        Seq::empty()
    } else if eq_ignore_case(rs.last().rtype, t) {
        of_type(rs.drop_last(), t).push(rs.last())
    } else {
        of_type(rs.drop_last(), t)
    }
}

/// The records of type A or AAAA, in order.
pub open spec fn addresses(rs: Seq<RecordV>) -> Seq<RecordV>
    decreases rs.len(),
{
    if rs.len() == 0 {
        Seq::empty()
    } else if is_address_type(rs.last().rtype) {
        addresses(rs.drop_last()).push(rs.last())
    } else {
        addresses(rs.drop_last())
    }
}

pub proof fn lemma_first_of_type_found(rs: Seq<RecordV>, t: Seq<u8>)
    ensures
        first_of_type(rs, t) matches Some(k) ==> 0 <= k < rs.len() && eq_ignore_case(rs[k].rtype, t),
    decreases rs.len(),
{
    if rs.len() > 0 {
        lemma_first_of_type_found(rs.drop_last(), t);
    }
}

/// Where the first record of type `t` stands, ignoring case.
pub open spec fn first_of_type(rs: Seq<RecordV>, t: Seq<u8>) -> Option<int>
    decreases rs.len(),
{
    if rs.len() == 0 {
        None
    } else {
        match first_of_type(rs.drop_last(), t) {
            Some(k) => Some(k),
            None => if eq_ignore_case(rs.last().rtype, t) {
                Some(rs.len() - 1)
            } else {
                None
            },
        }
    }
}

/// The names from `n` up to the apex, the apex left out, or `None` when
/// the apex is not above `n`.
pub open spec fn chain_to(n: Seq<u8>, apex: Seq<u8>) -> Option<Seq<Seq<u8>>>
    decreases n.len(),
{
    if name_key(n) == name_key(apex) {
        Some(Seq::empty())
    } else {
        match parent_of(n) {
            Some(p) => if p.len() < n.len() {
                match chain_to(p, apex) {
                    Some(c) => Some(seq![n] + c),
                    None => None,
                }
            } else {
                None
            },
            None => None,
        }
    }
}

/// `n` is a delegation for a question about `q`: it has NS records, and
/// isn't `q` itself when only DS records are asked for, since those belong
/// to the parent side of the cut.
pub open spec fn is_cut(rs: Seq<RecordV>, apex: Seq<u8>, n: Seq<u8>, q: Seq<u8>, ds_only: bool) -> bool {
    has_type(owned_by_key(rs, apex, name_key(n)), ns_type()) && !(ds_only && name_key(n)
        == name_key(q))
}

/// The highest delegation among `c`, whose last name is the highest.
pub open spec fn highest_cut(rs: Seq<RecordV>, apex: Seq<u8>, c: Seq<Seq<u8>>, q: Seq<u8>, ds_only: bool) -> Option<Seq<u8>>
    decreases c.len(),
{
    if c.len() == 0 {
        None
    } else if is_cut(rs, apex, c.last(), q, ds_only) {
        Some(c.last())
    } else {
        highest_cut(rs, apex, c.drop_last(), q, ds_only)
    }
}

/// The highest delegation at or above `q`, below the apex. The apex's own
/// NS records don't make a cut.
pub open spec fn cut_of(rs: Seq<RecordV>, apex: Seq<u8>, q: Seq<u8>, ds_only: bool) -> Option<Seq<u8>> {
    match chain_to(q, apex) {
        Some(c) => highest_cut(rs, apex, c, q, ds_only),
        None => None,
    }
}

/// The keys of the in-zone targets of NS records, each once, in order.
pub open spec fn glue_targets(ns: Seq<RecordV>, apex: Seq<u8>) -> Seq<Seq<u8>>
    decreases ns.len(),
{
    if ns.len() == 0 {
        Seq::empty()
    } else {
        let prev = glue_targets(ns.drop_last(), apex);
        let r = ns.last();
        if r.rdata.len() > 0 && parse_name(r.rdata[0], None) is Some && at_or_below(
            parse_name(r.rdata[0], None).unwrap(),
            apex,
        ) && !prev.contains(name_key(parse_name(r.rdata[0], None).unwrap())) {
            prev.push(name_key(parse_name(r.rdata[0], None).unwrap()))
        } else {
            prev
        }
    }
}

/// The A and AAAA records owned by each of `targets`, target by target.
pub open spec fn glue(rs: Seq<RecordV>, apex: Seq<u8>, targets: Seq<Seq<u8>>) -> Seq<RecordV>
    decreases targets.len(),
{
    if targets.len() == 0 {
        Seq::empty()
    } else {
        glue(rs, apex, targets.drop_last()) + addresses(owned_by_key(rs, apex, targets.last()))
    }
}

/// A referral to the delegation at `cut`: its NS records, then the glue.
pub open spec fn referral_of(rs: Seq<RecordV>, apex: Seq<u8>, cut: Seq<u8>) -> Seq<RecordV> {
    let ns = of_type(owned_by_key(rs, apex, name_key(cut)), ns_type());
    ns + glue(rs, apex, glue_targets(ns, apex))
}

/// The nearest existing name above `n`; the apex always exists.
pub open spec fn encloser(rs: Seq<RecordV>, apex: Seq<u8>, n: Seq<u8>) -> Seq<u8>
    decreases n.len(),
{
    match parent_of(n) {
        Some(p) => if p.len() < n.len() && !name_exists(rs, apex, p) {
            encloser(rs, apex, p)
        } else {
            p
        },
        None => n,
    }
}

/// What a name holds: the records it owns, or those of the wildcard that
/// covers it; or nothing though it exists; or nothing at all.
pub enum NodeV {
    Found { records: Seq<RecordV>, synthesised: bool },
    Empty,
    Missing,
}

/// What the zone holds at `q`. A name without records of its own is
/// covered by the wildcard directly below its closest encloser, which
/// might be an empty non-terminal: that is how a name with no records
/// still blocks a wildcard above it (RFC 4592 § 2.2.2).
pub open spec fn lookup(rs: Seq<RecordV>, apex: Seq<u8>, q: Seq<u8>) -> NodeV {
    let own = owned_by_key(rs, apex, name_key(q));
    if own.len() > 0 {
        NodeV::Found { records: own, synthesised: false }
    } else if name_exists(rs, apex, q) {
        NodeV::Empty
    } else {
        let w = wildcard_of(encloser(rs, apex, q));
        let wown = owned_by_key(rs, apex, name_key(w));
        if wown.len() > 0 {
            NodeV::Found { records: wown, synthesised: true }
        } else if name_exists(rs, apex, w) {
            NodeV::Empty
        } else {
            NodeV::Missing
        }
    }
}

/// A record as it appears in the answer: one a wildcard supplied takes the
/// name asked about as its owner.
pub open spec fn as_owner(r: RecordV, synthesised: bool, q: Seq<u8>) -> RecordV {
    if synthesised {
        RecordV { name: q, ttl: r.ttl, class: r.class, rtype: r.rtype, rdata: r.rdata }
    } else {
        r
    }
}

/// The records of `node` of the types asked for, as they appear in the
/// answer.
pub open spec fn wanted(node: Seq<RecordV>, types: Seq<Seq<u8>>, synthesised: bool, q: Seq<u8>) -> Seq<RecordV>
    decreases node.len(),
{
    if node.len() == 0 {
        Seq::empty()
    } else if types_want(types, node.last().rtype) {
        wanted(node.drop_last(), types, synthesised, q).push(as_owner(node.last(), synthesised, q))
    } else {
        wanted(node.drop_last(), types, synthesised, q)
    }
}

/// Only DS records are asked for.
pub open spec fn ds_only(types: Seq<Seq<u8>>) -> bool {
    types.len() > 0 && forall|i: int| 0 <= i < types.len() ==> eq_ignore_case(#[trigger] types[i], ds_type())
}

/// `q` is one of the names already asked about.
pub open spec fn seen_before(seen: Seq<Seq<u8>>, q: Seq<u8>) -> bool {
    exists|i: int| 0 <= i < seen.len() && name_key(#[trigger] seen[i]) == name_key(q)
}

/// Where a CNAME points, when its first field is a name.
pub open spec fn cname_target(c: RecordV) -> Option<Seq<u8>> {
    if c.rdata.len() > 0 {
        parse_name(c.rdata[0], None)
    } else {
        None
    }
}

/// The answer from the records of `node`: those of the types asked for,
/// or no data.
pub open spec fn answer_from(out: Seq<RecordV>, node: Seq<RecordV>, types: Seq<Seq<u8>>, synthesised: bool, q: Seq<u8>) -> AnswerV {
    let got = wanted(node, types, synthesised, q);
    AnswerV {
        records: out + got,
        outcome: if got.len() > 0 {
            Outcome::Answer
        } else {
            Outcome::NoData
        },
    }
}

/// The answer to `q`, after the CNAMEs in `out` were followed through the
/// names in `seen`.
pub open spec fn resolve_from(rs: Seq<RecordV>, apex: Seq<u8>, types: Seq<Seq<u8>>, q: Seq<u8>, seen: Seq<Seq<u8>>, out: Seq<RecordV>) -> AnswerV
    decreases MAX_CHAIN + 1 - seen.len(),
{
    if !at_or_below(q, apex) {
        AnswerV { records: out, outcome: Outcome::Answer }
    } else if seen_before(seen, q) {
        AnswerV { records: out, outcome: Outcome::Loop }
    } else {
        match cut_of(rs, apex, q, ds_only(types)) {
            Some(c) => AnswerV { records: out + referral_of(rs, apex, c), outcome: Outcome::Referral },
            None => match lookup(rs, apex, q) {
                NodeV::Empty => AnswerV { records: out, outcome: Outcome::NoData },
                NodeV::Missing => AnswerV { records: out, outcome: Outcome::NxDomain },
                NodeV::Found { records: node, synthesised } => match first_of_type(node, cname_type()) {
                    Some(ci) => if types.len() > 0 && !types_want(types, cname_type()) {
                        if seen.len() + 1 > MAX_CHAIN {
                            AnswerV { records: out, outcome: Outcome::Loop }
                        } else {
                            let out2 = out.push(as_owner(node[ci], synthesised, q));
                            match cname_target(node[ci]) {
                                Some(t) => resolve_from(rs, apex, types, t, seen.push(q), out2),
                                None => AnswerV { records: out2, outcome: Outcome::Answer },
                            }
                        }
                    } else {
                        answer_from(out, node, types, synthesised, q)
                    },
                    None => answer_from(out, node, types, synthesised, q),
                },
            },
        }
    }
}

/// The answer to `q` in the zone of `rs` with apex `apex`, for `types`
/// (none asks for all of them, like ANY).
pub open spec fn resolve_spec(rs: Seq<RecordV>, apex: Seq<u8>, types: Seq<Seq<u8>>, q: Seq<u8>) -> AnswerV {
    resolve_from(rs, apex, types, q, Seq::empty(), Seq::empty())
}

/// `raw` read as a name for a question to the zone with apex `apex`.
/// Without a trailing dot, the name is taken as written if that is inside
/// the zone, and relative to the apex if not, so `www` and
/// `www.example.com` are the same question.
pub open spec fn qname_parsed(raw: Seq<u8>, apex: Seq<u8>) -> Option<Seq<u8>> {
    if raw == seq![64u8] || ends_with_unescaped_dot(raw) {
        parse_name(raw, Some(apex))
    } else {
        match parse_name(raw, Some(root_bytes())) {
            Some(n) => if at_or_below(n, apex) {
                Some(n)
            } else {
                parse_name(raw, Some(apex))
            },
            None => parse_name(raw, Some(apex)),
        }
    }
}

/// `raw` is no single name: it is empty, or a subtree. In the root zone,
/// `.` is the apex rather than a subtree.
pub open spec fn not_one_name(raw: Seq<u8>, apex: Seq<u8>) -> bool {
    raw.len() == 0 || (raw[0] == 46u8 && !(raw == root_bytes() && name_key(apex) == name_key(
        root_bytes(),
    )))
}

/// The name `raw` asks about in the zone with apex `apex`, or `None` when
/// it is no single name inside the zone.
pub open spec fn qname_spec(raw: Seq<u8>, apex: Seq<u8>) -> Option<Seq<u8>> {
    if not_one_name(raw, apex) {
        None
    } else {
        match qname_parsed(raw, apex) {
            Some(n) => if at_or_below(n, apex) {
                Some(n)
            } else {
                None
            },
            None => None,
        }
    }
}

/// Why `raw` is no question to the zone with apex `apex`.
pub open spec fn qname_error(raw: Seq<u8>, apex: Seq<u8>) -> Seq<u8> {
    if raw.len() == 0 {
        "the query is empty".spec_bytes()
    } else if not_one_name(raw, apex) {
        "--resolve takes a single name, not a subtree like ".spec_bytes() + raw
    } else {
        match qname_parsed(raw, apex) {
            Some(n) => n + " is outside the zone ".spec_bytes() + apex,
            None => name_error(raw, Some(apex)),
        }
    }
}

pub proof fn lemma_parent_shorter(n: Seq<u8>)
    ensures
        parent_of(n) matches Some(p) ==> p.len() < n.len(),
{
    lemma_first_dot(n);
    if n != root_bytes() {
        if let Some(k) = crate::name::first_dot(n) {
            if k + 1 >= n.len() && n.len() == 1 {
                assert(n =~= root_bytes());
            }
        }
    }
}

/// Every record is inside the zone with apex `apex`.
pub open spec fn all_in_zone(rs: Seq<RecordV>, apex: Seq<u8>) -> bool {
    forall|i: int| 0 <= i < rs.len() ==> in_zone(#[trigger] rs[i], apex)
}

/// Every record is a CNAME.
pub open spec fn all_cnames(rs: Seq<RecordV>) -> bool {
    forall|i: int| 0 <= i < rs.len() ==> eq_ignore_case((#[trigger] rs[i]).rtype, cname_type())
}

proof fn lemma_owned_in_zone(rs: Seq<RecordV>, apex: Seq<u8>, k: Seq<u8>)
    ensures
        all_in_zone(owned_by_key(rs, apex, k), apex),
    decreases rs.len(),
{
    if rs.len() > 0 {
        lemma_owned_in_zone(rs.drop_last(), apex, k);
    }
}

proof fn lemma_of_type_in_zone(rs: Seq<RecordV>, apex: Seq<u8>, t: Seq<u8>)
    requires
        all_in_zone(rs, apex),
    ensures
        all_in_zone(of_type(rs, t), apex),
    decreases rs.len(),
{
    if rs.len() > 0 {
        assert(in_zone(rs[rs.len() - 1], apex));
        lemma_of_type_in_zone(rs.drop_last(), apex, t);
    }
}

proof fn lemma_addresses_in_zone(rs: Seq<RecordV>, apex: Seq<u8>)
    requires
        all_in_zone(rs, apex),
    ensures
        all_in_zone(addresses(rs), apex),
    decreases rs.len(),
{
    if rs.len() > 0 {
        assert(in_zone(rs[rs.len() - 1], apex));
        lemma_addresses_in_zone(rs.drop_last(), apex);
    }
}

proof fn lemma_glue_in_zone(rs: Seq<RecordV>, apex: Seq<u8>, targets: Seq<Seq<u8>>)
    ensures
        all_in_zone(glue(rs, apex, targets), apex),
    decreases targets.len(),
{
    if targets.len() > 0 {
        lemma_glue_in_zone(rs, apex, targets.drop_last());
        lemma_owned_in_zone(rs, apex, targets.last());
        lemma_addresses_in_zone(owned_by_key(rs, apex, targets.last()), apex);
        let a = glue(rs, apex, targets.drop_last());
        let b = addresses(owned_by_key(rs, apex, targets.last()));
        assert forall|i: int| 0 <= i < (a + b).len() implies in_zone(#[trigger] (a + b)[i], apex) by {
            if i < a.len() {
                assert((a + b)[i] == a[i]);
            } else {
                assert((a + b)[i] == b[i - a.len()]);
            }
        }
    }
}

proof fn lemma_referral_in_zone(rs: Seq<RecordV>, apex: Seq<u8>, cut: Seq<u8>)
    ensures
        all_in_zone(referral_of(rs, apex, cut), apex),
{
    let ns = of_type(owned_by_key(rs, apex, name_key(cut)), ns_type());
    lemma_owned_in_zone(rs, apex, name_key(cut));
    lemma_of_type_in_zone(owned_by_key(rs, apex, name_key(cut)), apex, ns_type());
    let g = glue(rs, apex, glue_targets(ns, apex));
    lemma_glue_in_zone(rs, apex, glue_targets(ns, apex));
    assert forall|i: int| 0 <= i < (ns + g).len() implies in_zone(#[trigger] (ns + g)[i], apex) by {
        if i < ns.len() {
            assert((ns + g)[i] == ns[i]);
        } else {
            assert((ns + g)[i] == g[i - ns.len()]);
        }
    }
}

proof fn lemma_wanted_in_zone(node: Seq<RecordV>, types: Seq<Seq<u8>>, synthesised: bool, q: Seq<u8>, apex: Seq<u8>)
    requires
        all_in_zone(node, apex),
        at_or_below(q, apex),
    ensures
        all_in_zone(wanted(node, types, synthesised, q), apex),
    decreases node.len(),
{
    if node.len() > 0 {
        assert(in_zone(node[node.len() - 1], apex));
        lemma_wanted_in_zone(node.drop_last(), types, synthesised, q, apex);
    }
}

proof fn lemma_lookup_in_zone(rs: Seq<RecordV>, apex: Seq<u8>, q: Seq<u8>)
    ensures
        lookup(rs, apex, q) matches NodeV::Found { records, .. } ==> all_in_zone(records, apex),
{
    lemma_owned_in_zone(rs, apex, name_key(q));
    lemma_owned_in_zone(rs, apex, name_key(wildcard_of(encloser(rs, apex, q))));
}

proof fn lemma_append_in_zone(a: Seq<RecordV>, b: Seq<RecordV>, apex: Seq<u8>)
    requires
        all_in_zone(a, apex),
        all_in_zone(b, apex),
    ensures
        all_in_zone(a + b, apex),
{
    assert forall|i: int| 0 <= i < (a + b).len() implies in_zone(#[trigger] (a + b)[i], apex) by {
        if i < a.len() {
            assert((a + b)[i] == a[i]);
        } else {
            assert((a + b)[i] == b[i - a.len()]);
        }
    }
}

proof fn lemma_resolve_from_in_zone(rs: Seq<RecordV>, apex: Seq<u8>, types: Seq<Seq<u8>>, q: Seq<u8>, seen: Seq<Seq<u8>>, out: Seq<RecordV>)
    requires
        all_in_zone(out, apex),
    ensures
        all_in_zone(resolve_from(rs, apex, types, q, seen, out).records, apex),
    decreases MAX_CHAIN + 1 - seen.len(),
{
    if at_or_below(q, apex) && !seen_before(seen, q) {
        match cut_of(rs, apex, q, ds_only(types)) {
            Some(c) => {
                lemma_referral_in_zone(rs, apex, c);
                lemma_append_in_zone(out, referral_of(rs, apex, c), apex);
            },
            None => {
                lemma_lookup_in_zone(rs, apex, q);
                match lookup(rs, apex, q) {
                    NodeV::Found { records: node, synthesised } => {
                        lemma_wanted_in_zone(node, types, synthesised, q, apex);
                        lemma_append_in_zone(out, wanted(node, types, synthesised, q), apex);
                        lemma_first_of_type_found(node, cname_type());
                        match first_of_type(node, cname_type()) {
                            Some(ci) => {
                                if types.len() > 0 && !types_want(types, cname_type()) && seen.len() + 1 <= MAX_CHAIN {
                                    let out2 = out.push(as_owner(node[ci], synthesised, q));
                                    assert(in_zone(node[ci], apex));
                                    assert(all_in_zone(out2, apex)) by {
                                        assert forall|i: int| 0 <= i < out2.len() implies in_zone(#[trigger] out2[i], apex) by {
                                            if i < out.len() {
                                                assert(out2[i] == out[i]);
                                            }
                                        }
                                    }
                                    if let Some(t) = cname_target(node[ci]) {
                                        lemma_resolve_from_in_zone(rs, apex, types, t, seen.push(q), out2);
                                    }
                                }
                            },
                            None => {},
                        }
                    },
                    _ => {},
                }
            },
        }
    }
}

/// Every record of an answer is inside the zone: at or below its apex,
/// also where a wildcard supplied it or a CNAME led to it.
pub proof fn lemma_answer_inside_zone(rs: Seq<RecordV>, apex: Seq<u8>, types: Seq<Seq<u8>>, q: Seq<u8>)
    ensures
        forall|i: int|
            0 <= i < resolve_spec(rs, apex, types, q).records.len() ==> at_or_below(
                (#[trigger] resolve_spec(rs, apex, types, q).records[i]).name,
                apex,
            ),
{
    lemma_resolve_from_in_zone(rs, apex, types, q, Seq::empty(), Seq::empty());
    let recs = resolve_spec(rs, apex, types, q).records;
    assert forall|i: int| 0 <= i < recs.len() implies at_or_below((#[trigger] recs[i]).name, apex) by {
        assert(in_zone(recs[i], apex));
    }
}

proof fn lemma_resolve_from_cnames(rs: Seq<RecordV>, apex: Seq<u8>, types: Seq<Seq<u8>>, q: Seq<u8>, seen: Seq<Seq<u8>>, out: Seq<RecordV>)
    requires
        all_cnames(out),
    ensures
        ({
            let a = resolve_from(rs, apex, types, q, seen, out);
            a.outcome == Outcome::NoData || a.outcome == Outcome::NxDomain || a.outcome == Outcome::Loop
                ==> all_cnames(a.records)
        }),
    decreases MAX_CHAIN + 1 - seen.len(),
{
    if at_or_below(q, apex) && !seen_before(seen, q) && cut_of(rs, apex, q, ds_only(types)) is None {
        match lookup(rs, apex, q) {
            NodeV::Found { records: node, synthesised } => {
                assert(out + Seq::<RecordV>::empty() =~= out);
                lemma_first_of_type_found(node, cname_type());
                match first_of_type(node, cname_type()) {
                    Some(ci) => {
                        if types.len() > 0 && !types_want(types, cname_type()) && seen.len() + 1 <= MAX_CHAIN {
                            let out2 = out.push(as_owner(node[ci], synthesised, q));
                            assert(all_cnames(out2)) by {
                                assert forall|i: int| 0 <= i < out2.len() implies eq_ignore_case(
                                    (#[trigger] out2[i]).rtype,
                                    cname_type(),
                                ) by {
                                    if i < out.len() {
                                        assert(out2[i] == out[i]);
                                    }
                                }
                            }
                            if let Some(t) = cname_target(node[ci]) {
                                lemma_resolve_from_cnames(rs, apex, types, t, seen.push(q), out2);
                            }
                        }
                    },
                    None => {},
                }
            },
            _ => {},
        }
    }
}

/// An answer that ends without the records asked for, because the name
/// has none of them, doesn't exist, or the CNAMEs loop, holds nothing but
/// the CNAMEs followed on the way.
pub proof fn lemma_empty_answers_hold_only_cnames(rs: Seq<RecordV>, apex: Seq<u8>, types: Seq<Seq<u8>>, q: Seq<u8>)
    ensures
        ({
            let a = resolve_spec(rs, apex, types, q);
            a.outcome == Outcome::NoData || a.outcome == Outcome::NxDomain || a.outcome == Outcome::Loop
                ==> forall|i: int|
                0 <= i < a.records.len() ==> eq_ignore_case((#[trigger] a.records[i]).rtype, cname_type())
        }),
{
    lemma_resolve_from_cnames(rs, apex, types, q, Seq::empty(), Seq::empty());
}

/// Every record's type is written in upper case, as a parse leaves it.
pub open spec fn types_upper(rs: Seq<RecordV>) -> bool {
    forall|i: int| 0 <= i < rs.len() ==> upper_seq((#[trigger] rs[i]).rtype) == rs[i].rtype
}

/// Every record has the type `CNAME`, spelled so.
pub open spec fn exactly_cnames(rs: Seq<RecordV>) -> bool {
    forall|i: int| 0 <= i < rs.len() ==> (#[trigger] rs[i]).rtype == cname_type()
}

proof fn lemma_owned_upper(rs: Seq<RecordV>, apex: Seq<u8>, k: Seq<u8>)
    requires
        types_upper(rs),
    ensures
        types_upper(owned_by_key(rs, apex, k)),
    decreases rs.len(),
{
    if rs.len() > 0 {
        let init = rs.drop_last();
        assert(types_upper(init)) by {
            assert forall|i: int| 0 <= i < init.len() implies upper_seq((#[trigger] init[i]).rtype) == init[i].rtype by {
                assert(init[i] == rs[i]);
            }
        }
        assert(upper_seq(rs[rs.len() - 1].rtype) == rs[rs.len() - 1].rtype);
        lemma_owned_upper(init, apex, k);
    }
}

/// A type in upper case that is `CNAME` ignoring case is `CNAME`.
proof fn lemma_upper_cname(t: Seq<u8>)
    requires
        upper_seq(t) == t,
        eq_ignore_case(t, cname_type()),
    ensures
        t == cname_type(),
{
    let c = cname_type();
    assert(lower_seq(t).len() == t.len());
    assert forall|i: int| 0 <= i < t.len() implies t[i] == c[i] by {
        assert(lower_seq(t)[i] == lower_seq(c)[i]);
        assert(upper_seq(t)[i] == t[i]);
    }
    assert(t =~= c);
}

proof fn lemma_resolve_from_exact_cnames(rs: Seq<RecordV>, apex: Seq<u8>, types: Seq<Seq<u8>>, q: Seq<u8>, seen: Seq<Seq<u8>>, out: Seq<RecordV>)
    requires
        types_upper(rs),
        exactly_cnames(out),
    ensures
        ({
            let a = resolve_from(rs, apex, types, q, seen, out);
            a.outcome == Outcome::NoData || a.outcome == Outcome::NxDomain || a.outcome == Outcome::Loop
                ==> exactly_cnames(a.records)
        }),
    decreases MAX_CHAIN + 1 - seen.len(),
{
    if at_or_below(q, apex) && !seen_before(seen, q) && cut_of(rs, apex, q, ds_only(types)) is None {
        lemma_owned_upper(rs, apex, name_key(q));
        lemma_owned_upper(rs, apex, name_key(wildcard_of(encloser(rs, apex, q))));
        match lookup(rs, apex, q) {
            NodeV::Found { records: node, synthesised } => {
                assert(out + Seq::<RecordV>::empty() =~= out);
                lemma_first_of_type_found(node, cname_type());
                match first_of_type(node, cname_type()) {
                    Some(ci) => {
                        if types.len() > 0 && !types_want(types, cname_type()) && seen.len() + 1 <= MAX_CHAIN {
                            let out2 = out.push(as_owner(node[ci], synthesised, q));
                            assert(upper_seq(node[ci].rtype) == node[ci].rtype);
                            lemma_upper_cname(node[ci].rtype);
                            assert(exactly_cnames(out2)) by {
                                assert forall|i: int| 0 <= i < out2.len() implies (#[trigger] out2[i]).rtype
                                    == cname_type() by {
                                    if i < out.len() {
                                        assert(out2[i] == out[i]);
                                    }
                                }
                            }
                            if let Some(t) = cname_target(node[ci]) {
                                lemma_resolve_from_exact_cnames(rs, apex, types, t, seen.push(q), out2);
                            }
                        }
                    },
                    None => {},
                }
            },
            _ => {},
        }
    }
}

/// Where the zone's types are in upper case, as in every zone a parse
/// gives, an answer without the records asked for holds records of type
/// `CNAME`, spelled exactly so, and nothing else.
pub proof fn lemma_empty_answers_hold_exactly_cnames(rs: Seq<RecordV>, apex: Seq<u8>, types: Seq<Seq<u8>>, q: Seq<u8>)
    requires
        types_upper(rs),
    ensures
        ({
            let a = resolve_spec(rs, apex, types, q);
            a.outcome == Outcome::NoData || a.outcome == Outcome::NxDomain || a.outcome == Outcome::Loop
                ==> forall|i: int| 0 <= i < a.records.len() ==> (#[trigger] a.records[i]).rtype == cname_type()
        }),
{
    lemma_resolve_from_exact_cnames(rs, apex, types, q, Seq::empty(), Seq::empty());
}

/// The records of every zone a parse gives have their types in upper case.
pub proof fn lemma_parsed_types_upper(input: Seq<u8>, source: Seq<u8>, fallback: Option<Seq<u8>>)
    requires
        fallback matches Some(o) ==> is_name(o),
    ensures
        parse_str_spec(input, source, fallback) matches Ok(z) ==> types_upper(z.records),
{
    lemma_parsed_records(input, source, fallback);
}

proof fn lemma_owned_holds(rs: Seq<RecordV>, apex: Seq<u8>, k: Seq<u8>, i: int)
    requires
        0 <= i < rs.len(),
        in_zone(rs[i], apex),
        name_key(rs[i].name) == k,
    ensures
        owned_by_key(rs, apex, k).contains(rs[i]),
    decreases rs.len(),
{
    let prev = owned_by_key(rs.drop_last(), apex, k);
    if i == rs.len() - 1 {
        assert(owned_by_key(rs, apex, k) == prev.push(rs.last()));
        assert(owned_by_key(rs, apex, k)[prev.len() as int] == rs[i]);
    } else {
        assert(rs.drop_last()[i] == rs[i]);
        lemma_owned_holds(rs.drop_last(), apex, k, i);
        let j = choose|j: int| 0 <= j < prev.len() && prev[j] == rs[i];
        if in_zone(rs.last(), apex) && name_key(rs.last().name) == k {
            assert(owned_by_key(rs, apex, k)[j] == rs[i]);
        }
    }
}

proof fn lemma_of_type_holds(xs: Seq<RecordV>, t: Seq<u8>, x: RecordV)
    requires
        xs.contains(x),
        eq_ignore_case(x.rtype, t),
    ensures
        of_type(xs, t).contains(x),
    decreases xs.len(),
{
    let prev = of_type(xs.drop_last(), t);
    if xs.last() == x {
        assert(of_type(xs, t)[prev.len() as int] == x);
    } else {
        let i = choose|i: int| 0 <= i < xs.len() && xs[i] == x;
        assert(xs.drop_last()[i] == x);
        lemma_of_type_holds(xs.drop_last(), t, x);
        let j = choose|j: int| 0 <= j < prev.len() && prev[j] == x;
        if eq_ignore_case(xs.last().rtype, t) {
            assert(of_type(xs, t)[j] == x);
        }
    }
}

proof fn lemma_addresses_hold(xs: Seq<RecordV>, x: RecordV)
    requires
        xs.contains(x),
        is_address_type(x.rtype),
    ensures
        addresses(xs).contains(x),
    decreases xs.len(),
{
    let prev = addresses(xs.drop_last());
    if xs.last() == x {
        assert(addresses(xs)[prev.len() as int] == x);
    } else {
        let i = choose|i: int| 0 <= i < xs.len() && xs[i] == x;
        assert(xs.drop_last()[i] == x);
        lemma_addresses_hold(xs.drop_last(), x);
        let j = choose|j: int| 0 <= j < prev.len() && prev[j] == x;
        if is_address_type(xs.last().rtype) {
            assert(addresses(xs)[j] == x);
        }
    }
}

proof fn lemma_glue_targets_grow(ns: Seq<RecordV>, apex: Seq<u8>, k: Seq<u8>)
    requires
        glue_targets(ns.drop_last(), apex).contains(k),
        ns.len() > 0,
    ensures
        glue_targets(ns, apex).contains(k),
{
    let prev = glue_targets(ns.drop_last(), apex);
    let j = choose|j: int| 0 <= j < prev.len() && prev[j] == k;
    assert(glue_targets(ns, apex)[j] == k);
}

proof fn lemma_glue_targets_hold(ns: Seq<RecordV>, apex: Seq<u8>, n: RecordV)
    requires
        ns.contains(n),
        n.rdata.len() > 0,
        parse_name(n.rdata[0], None) is Some,
        at_or_below(parse_name(n.rdata[0], None)->0, apex),
    ensures
        glue_targets(ns, apex).contains(name_key(parse_name(n.rdata[0], None)->0)),
    decreases ns.len(),
{
    let k = name_key(parse_name(n.rdata[0], None)->0);
    let prev = glue_targets(ns.drop_last(), apex);
    if ns.last() == n {
        if prev.contains(k) {
            lemma_glue_targets_grow(ns, apex, k);
        } else {
            assert(glue_targets(ns, apex)[prev.len() as int] == k);
        }
    } else {
        let i = choose|i: int| 0 <= i < ns.len() && ns[i] == n;
        assert(ns.drop_last()[i] == n);
        lemma_glue_targets_hold(ns.drop_last(), apex, n);
        lemma_glue_targets_grow(ns, apex, k);
    }
}

proof fn lemma_glue_holds(rs: Seq<RecordV>, apex: Seq<u8>, targets: Seq<Seq<u8>>, k: Seq<u8>, g: RecordV)
    requires
        targets.contains(k),
        addresses(owned_by_key(rs, apex, k)).contains(g),
    ensures
        glue(rs, apex, targets).contains(g),
    decreases targets.len(),
{
    let a = glue(rs, apex, targets.drop_last());
    let b = addresses(owned_by_key(rs, apex, targets.last()));
    if targets.last() == k {
        let j = choose|j: int| 0 <= j < b.len() && b[j] == g;
        assert((a + b)[a.len() + j] == g);
    } else {
        let i = choose|i: int| 0 <= i < targets.len() && targets[i] == k;
        assert(targets.drop_last()[i] == k);
        lemma_glue_holds(rs, apex, targets.drop_last(), k, g);
        let j = choose|j: int| 0 <= j < a.len() && a[j] == g;
        assert((a + b)[j] == g);
    }
}

/// A referral to a delegation holds every NS record of the zone at the
/// cut, and, for each of them whose target is inside the zone, every A and
/// AAAA record of the zone owned by that target: the glue of every
/// nameserver, not just the first.
pub proof fn lemma_referral_holds_all_glue(rs: Seq<RecordV>, apex: Seq<u8>, cut: Seq<u8>)
    ensures
        forall|i: int|
            0 <= i < rs.len() && at_or_below(rs[i].name, apex) && name_key(rs[i].name) == name_key(cut)
                && eq_ignore_case(rs[i].rtype, seq![78u8, 83u8]) ==> referral_of(rs, apex, cut).contains(
                #[trigger] rs[i],
            ),
        forall|i: int, j: int|
            #![trigger rs[i], rs[j]]
            0 <= i < rs.len() && 0 <= j < rs.len() && at_or_below(rs[i].name, apex) && name_key(rs[i].name)
                == name_key(cut) && eq_ignore_case(rs[i].rtype, seq![78u8, 83u8]) && rs[i].rdata.len() > 0
                && parse_name(rs[i].rdata[0], None) is Some && at_or_below(
                parse_name(rs[i].rdata[0], None)->0,
                apex,
            ) && at_or_below(rs[j].name, apex) && name_key(rs[j].name) == name_key(
                parse_name(rs[i].rdata[0], None)->0,
            ) && (eq_ignore_case(rs[j].rtype, seq![65u8]) || eq_ignore_case(
                rs[j].rtype,
                seq![65u8, 65u8, 65u8, 65u8],
            )) ==> referral_of(rs, apex, cut).contains(rs[j]),
{
    let own = owned_by_key(rs, apex, name_key(cut));
    let ns = of_type(own, ns_type());
    let targets = glue_targets(ns, apex);
    let g = glue(rs, apex, targets);
    let refl = referral_of(rs, apex, cut);
    assert(refl == ns + g);
    assert forall|i: int|
        0 <= i < rs.len() && at_or_below(rs[i].name, apex) && name_key(rs[i].name) == name_key(cut)
            && eq_ignore_case(rs[i].rtype, seq![78u8, 83u8]) implies refl.contains(#[trigger] rs[i]) by {
        lemma_owned_holds(rs, apex, name_key(cut), i);
        lemma_of_type_holds(own, ns_type(), rs[i]);
        let m = choose|m: int| 0 <= m < ns.len() && ns[m] == rs[i];
        assert(refl[m] == rs[i]);
    }
    assert forall|i: int, j: int|
        #![trigger rs[i], rs[j]]
        0 <= i < rs.len() && 0 <= j < rs.len() && at_or_below(rs[i].name, apex) && name_key(rs[i].name)
            == name_key(cut) && eq_ignore_case(rs[i].rtype, seq![78u8, 83u8]) && rs[i].rdata.len() > 0
            && parse_name(rs[i].rdata[0], None) is Some && at_or_below(
            parse_name(rs[i].rdata[0], None)->0,
            apex,
        ) && at_or_below(rs[j].name, apex) && name_key(rs[j].name) == name_key(
            parse_name(rs[i].rdata[0], None)->0,
        ) && (eq_ignore_case(rs[j].rtype, seq![65u8]) || eq_ignore_case(
            rs[j].rtype,
            seq![65u8, 65u8, 65u8, 65u8],
        )) implies refl.contains(rs[j]) by {
        let k = name_key(parse_name(rs[i].rdata[0], None)->0);
        lemma_owned_holds(rs, apex, name_key(cut), i);
        lemma_of_type_holds(own, ns_type(), rs[i]);
        lemma_glue_targets_hold(ns, apex, rs[i]);
        lemma_owned_holds(rs, apex, k, j);
        lemma_addresses_hold(owned_by_key(rs, apex, k), rs[j]);
        lemma_glue_holds(rs, apex, targets, k, rs[j]);
        let m = choose|m: int| 0 <= m < g.len() && g[m] == rs[j];
        assert(refl[ns.len() + m] == rs[j]);
    }
}

/// A question at or below a delegation inside the zone is answered with a
/// referral to the highest such delegation, which holds its NS records and
/// the glue of every nameserver inside the zone.
pub proof fn lemma_question_below_cut_is_referred(rs: Seq<RecordV>, apex: Seq<u8>, types: Seq<Seq<u8>>, q: Seq<u8>)
    requires
        at_or_below(q, apex),
        cut_of(rs, apex, q, ds_only(types)) is Some,
    ensures
        resolve_spec(rs, apex, types, q).outcome == Outcome::Referral,
        resolve_spec(rs, apex, types, q).records == referral_of(rs, apex, cut_of(rs, apex, q, ds_only(types))->0),
{
    assert(!seen_before(Seq::empty(), q));
    assert(Seq::<RecordV>::empty() + referral_of(rs, apex, cut_of(rs, apex, q, ds_only(types))->0)
        =~= referral_of(rs, apex, cut_of(rs, apex, q, ds_only(types))->0));
}

/// A name asked about is inside the zone.
pub proof fn lemma_qname_inside_zone(raw: Seq<u8>, apex: Seq<u8>)
    ensures
        qname_spec(raw, apex) matches Some(n) ==> at_or_below(n, apex),
{
}

/// A name written without a trailing dot that, read from the root, is
/// already inside the zone is asked about as written.
pub proof fn lemma_qname_as_written(raw: Seq<u8>, apex: Seq<u8>)
    ensures
        qname_spec(raw, apex) matches Some(n) ==> (raw != seq![64u8] && !ends_with_unescaped_dot(raw)
            && parse_name(raw, Some(root_bytes())) is Some && at_or_below(
            parse_name(raw, Some(root_bytes()))->0,
            apex,
        ) ==> n == parse_name(raw, Some(root_bytes()))->0),
{
}

/// The name asked about, written out in full, asks about the same name:
/// asking again by it gets the same answer. Every [`Name`] is absolute, so
/// this holds of every apex.
pub proof fn lemma_qname_round_trip(raw: Seq<u8>, apex: Seq<u8>)
    requires
        is_name(apex),
    ensures
        qname_spec(raw, apex) matches Some(n) ==> qname_spec(n, apex) == Some(n),
{
    if let Some(n) = qname_spec(raw, apex) {
        assert(root_bytes().drop_last() =~= Seq::<u8>::empty());
        lemma_parse_gives_absolute(raw, Some(apex));
        lemma_parse_gives_absolute(raw, Some(root_bytes()));
        assert(ends_with_unescaped_dot(n) && !has_empty_label(n));
        if n == root_bytes() {
            assert(name_labels(root_bytes()).len() == 0);
            assert(name_labels(apex).len() == 0);
        } else {
            lemma_no_leading_dot(n);
        }
        assert(n.last() == 46u8);
        if n == seq![64u8] {
            assert(n.last() == 64u8);
        }
        lemma_absolute_parses_as_itself(n, Some(apex));
    }
}

/// Whether record `r` has type `t`, ignoring case.
fn has_rtype(r: &Record, t: &[u8]) -> (b: bool)
    ensures
        b == eq_ignore_case(record_view(*r).rtype, t@),
{
    bytes_eq_ignore_case(r.rtype.as_str().as_bytes(), t)
}

/// The zone's records whose owner has the key `key`, in zone order.
///
/// The zone is searched record by record rather than through a map from
/// owner keys to records built once. A key is a `Vec<u8>`. vstd's
/// contracts for `HashMap` hold only where `obeys_key_model` holds of the
/// key type, which vstd establishes for the integer types, `bool` and boxes
/// of them and nothing else, so for `Vec<u8>` it could only be assumed, and
/// this crate assumes nothing. Likewise its `BTreeMap` contracts need
/// `key_obeys_cmp_spec`, which vstd gives no `Vec`. Without those contracts
/// nothing could be proved of what a lookup returns. The answers are the
/// same as a map's, and the scan is what [`owned_by_key`] states.
fn owned_key(recs: &Vec<Record>, apex: &Name, key: &[u8]) -> (r: Vec<Record>)
    ensures
        records_view(r@) == owned_by_key(records_view(recs@), apex@, key@),
{
    let ghost rs = records_view(recs@);
    let mut out: Vec<Record> = Vec::new();
    let mut i: usize = 0;
    while i < recs.len()
        invariant
            0 <= i <= recs@.len(),
            rs == records_view(recs@),
            records_view(out@) == owned_by_key(rs.take(i as int), apex@, key@),
        decreases recs@.len() - i,
    {
        let r = &recs[i];
        proof {
            assert(rs.take(i + 1).drop_last() =~= rs.take(i as int));
            assert(rs.take(i + 1).last() == record_view(*r));
        }
        if r.name.is_at_or_below(apex) {
            let k = r.name.key();
            if bytes_equal(k.as_slice(), key) {
                let ghost prev = out@;
                out.push(r.clone());
                proof {
                    assert(records_view(out@) =~= records_view(prev).push(record_view(*r)));
                }
            }
        }
        i += 1;
    }
    proof {
        assert(rs.take(rs.len() as int) =~= rs);
    }
    out
}

/// Whether `n` exists in the zone: it is the apex, or some record of the
/// zone is at or below it. Like [`owned_key`], this scans the records in
/// place of a set of names built once, for the same reason.
fn node_exists(recs: &Vec<Record>, apex: &Name, n: &Name) -> (b: bool)
    ensures
        b == name_exists(records_view(recs@), apex@, n@),
{
    let ghost rs = records_view(recs@);
    if *n == *apex {
        return true;
    }
    let mut i: usize = 0;
    while i < recs.len()
        invariant
            0 <= i <= recs@.len(),
            rs == records_view(recs@),
            name_key(n@) != name_key(apex@),
            forall|j: int| 0 <= j < i ==> !(in_zone(#[trigger] rs[j], apex@) && at_or_below(rs[j].name, n@)),
        decreases recs@.len() - i,
    {
        proof {
            assert(rs[i as int] == record_view(recs@[i as int]));
        }
        if recs[i].name.is_at_or_below(apex) && recs[i].name.is_at_or_below(n) {
            return true;
        }
        i += 1;
    }
    false
}

/// Whether some record of `rs` has type `t`, ignoring case.
fn any_of_type(rs: &Vec<Record>, t: &[u8]) -> (b: bool)
    ensures
        b == has_type(records_view(rs@), t@),
{
    let ghost v = records_view(rs@);
    let mut i: usize = 0;
    while i < rs.len()
        invariant
            0 <= i <= rs@.len(),
            v == records_view(rs@),
            forall|j: int| 0 <= j < i ==> !eq_ignore_case((#[trigger] v[j]).rtype, t@),
        decreases rs@.len() - i,
    {
        proof {
            assert(v[i as int] == record_view(rs@[i as int]));
        }
        if has_rtype(&rs[i], t) {
            return true;
        }
        i += 1;
    }
    false
}

/// The records of `rs` of type `t`, ignoring case, in order.
fn keep_type(rs: &Vec<Record>, t: &[u8]) -> (r: Vec<Record>)
    ensures
        records_view(r@) == of_type(records_view(rs@), t@),
{
    let ghost v = records_view(rs@);
    let mut out: Vec<Record> = Vec::new();
    let mut i: usize = 0;
    while i < rs.len()
        invariant
            0 <= i <= rs@.len(),
            v == records_view(rs@),
            records_view(out@) == of_type(v.take(i as int), t@),
        decreases rs@.len() - i,
    {
        proof {
            assert(v.take(i + 1).drop_last() =~= v.take(i as int));
            assert(v.take(i + 1).last() == record_view(rs@[i as int]));
        }
        if has_rtype(&rs[i], t) {
            let ghost prev = out@;
            out.push(rs[i].clone());
            proof {
                assert(records_view(out@) =~= records_view(prev).push(record_view(rs@[i as int])));
            }
        }
        i += 1;
    }
    proof {
        assert(v.take(v.len() as int) =~= v);
    }
    out
}

/// Appends the A and AAAA records of `rs` to `out`, in order.
fn push_addresses(out: &mut Vec<Record>, rs: &Vec<Record>)
    ensures
        records_view(final(out)@) == records_view(old(out)@) + addresses(records_view(rs@)),
{
    let ghost v = records_view(rs@);
    let mut i: usize = 0;
    proof {
        assert(records_view(out@) + addresses(v.take(0)) =~= records_view(out@));
    }
    while i < rs.len()
        invariant
            0 <= i <= rs@.len(),
            v == records_view(rs@),
            records_view(out@) == records_view(old(out)@) + addresses(v.take(i as int)),
        decreases rs@.len() - i,
    {
        proof {
            assert(v.take(i + 1).drop_last() =~= v.take(i as int));
            assert(v.take(i + 1).last() == record_view(rs@[i as int]));
        }
        let a: &[u8] = &[65u8];
        let aaaa: &[u8] = &[65u8, 65u8, 65u8, 65u8];
        proof {
            assert(a@ =~= seq![65u8]);
            assert(aaaa@ =~= seq![65u8, 65u8, 65u8, 65u8]);
        }
        if has_rtype(&rs[i], a) || has_rtype(&rs[i], aaaa) {
            let ghost prev = out@;
            out.push(rs[i].clone());
            proof {
                assert(records_view(out@) =~= records_view(prev).push(record_view(rs@[i as int])));
            }
        }
        i += 1;
    }
    proof {
        assert(v.take(v.len() as int) =~= v);
    }
}

pub proof fn lemma_first_of_type_prefix(rs: Seq<RecordV>, t: Seq<u8>, m: int)
    requires
        0 <= m <= rs.len(),
        first_of_type(rs.take(m), t) is Some,
    ensures
        first_of_type(rs, t) == first_of_type(rs.take(m), t),
    decreases rs.len() - m,
{
    if m == rs.len() {
        assert(rs.take(m) =~= rs);
    } else {
        assert(rs.take(m + 1).drop_last() =~= rs.take(m));
        lemma_first_of_type_prefix(rs, t, m + 1);
    }
}

/// Where the first record of type `t` stands in `rs`, ignoring case.
fn find_type(rs: &Vec<Record>, t: &[u8]) -> (r: Option<usize>)
    ensures
        r matches Some(k) ==> first_of_type(records_view(rs@), t@) == Some(k as int),
        r is None ==> first_of_type(records_view(rs@), t@) is None,
{
    let ghost v = records_view(rs@);
    let mut i: usize = 0;
    while i < rs.len()
        invariant
            0 <= i <= rs@.len(),
            v == records_view(rs@),
            first_of_type(v.take(i as int), t@) is None,
        decreases rs@.len() - i,
    {
        proof {
            assert(v.take(i + 1).drop_last() =~= v.take(i as int));
            assert(v.take(i + 1).last() == record_view(rs@[i as int]));
        }
        if has_rtype(&rs[i], t) {
            proof {
                lemma_first_of_type_prefix(v, t@, i + 1);
            }
            return Some(i);
        }
        i += 1;
    }
    proof {
        assert(v.take(v.len() as int) =~= v);
    }
    None
}

pub open spec fn keys_view(v: Seq<Vec<u8>>) -> Seq<Seq<u8>> {
    v.map_values(|k: Vec<u8>| k@)
}

/// Whether `k` is one of `v`.
fn contains_key(v: &Vec<Vec<u8>>, k: &Vec<u8>) -> (b: bool)
    ensures
        b == keys_view(v@).contains(k@),
{
    let ghost kv = keys_view(v@);
    let mut i: usize = 0;
    while i < v.len()
        invariant
            0 <= i <= v@.len(),
            kv == keys_view(v@),
            forall|j: int| 0 <= j < i ==> kv[j] != k@,
        decreases v@.len() - i,
    {
        if bytes_equal(v[i].as_slice(), k.as_slice()) {
            proof {
                assert(kv[i as int] == k@);
            }
            return true;
        }
        i += 1;
    }
    false
}

/// The names from `q` up to the apex, nearest first, the apex left out.
fn chain(apex: &Name, q: &Name) -> (r: Option<Vec<Name>>)
    ensures
        r matches Some(c) ==> chain_to(q@, apex@) == Some(names_view(c@)),
        r is None ==> chain_to(q@, apex@) is None,
{
    let mut below: Vec<Name> = Vec::new();
    let mut name = q.clone();
    proof {
        assert(names_view(below@) =~= Seq::<Seq<u8>>::empty());
        match chain_to(name@, apex@) {
            Some(c) => assert(Seq::<Seq<u8>>::empty() + c =~= c),
            None => {},
        }
    }
    loop
        invariant
            chain_to(q@, apex@) == match chain_to(name@, apex@) {
                Some(c) => Some(names_view(below@) + c),
                None => None,
            },
        decreases name@.len(),
    {
        if name == *apex {
            proof {
                assert(names_view(below@) + Seq::<Seq<u8>>::empty() =~= names_view(below@));
            }
            return Some(below);
        }
        match name.parent() {
            Some(p) => {
                proof {
                    lemma_parent_shorter(name@);
                }
                let ghost prev = below@;
                let ghost old_name = name@;
                below.push(name);
                proof {
                    assert(names_view(below@) =~= names_view(prev).push(old_name));
                    match chain_to(p@, apex@) {
                        Some(c) => {
                            assert(names_view(prev) + (seq![old_name] + c) =~= names_view(below@)
                                + c);
                        },
                        None => {},
                    }
                }
                name = p;
            },
            None => {
                return None;
            },
        }
    }
}

/// The highest delegation at or above `q`, below the apex.
fn find_cut(recs: &Vec<Record>, apex: &Name, q: &Name, ds_only: bool) -> (r: Option<Name>)
    ensures
        opt_name(r) == cut_of(records_view(recs@), apex@, q@, ds_only),
{
    let ghost rs = records_view(recs@);
    let below = match chain(apex, q) {
        Some(c) => c,
        None => {
            return None;
        },
    };
    let ghost c = names_view(below@);
    let ns_t: &[u8] = &[78u8, 83u8];
    proof {
        assert(ns_t@ =~= ns_type());
        assert(c.take(below@.len() as int) =~= c);
    }
    let mut i = below.len();
    while i > 0
        invariant
            i <= below@.len(),
            rs == records_view(recs@),
            c == names_view(below@),
            ns_t@ == ns_type(),
            chain_to(q@, apex@) == Some(c),
            highest_cut(rs, apex@, c, q@, ds_only) == highest_cut(rs, apex@, c.take(i as int), q@, ds_only),
        decreases i,
    {
        i -= 1;
        let n = &below[i];
        proof {
            assert(c.take(i + 1).drop_last() =~= c.take(i as int));
            assert(c.take(i + 1).last() == n@);
        }
        let k = n.key();
        let own = owned_key(recs, apex, k.as_slice());
        if any_of_type(&own, ns_t) && !(ds_only && *n == *q) {
            return Some(n.clone());
        }
    }
    proof {
        assert(c.take(0) =~= Seq::<Seq<u8>>::empty());
    }
    None
}

/// The nearest existing name above `q`.
fn closest_encloser(recs: &Vec<Record>, apex: &Name, q: &Name) -> (r: Name)
    ensures
        r@ == encloser(records_view(recs@), apex@, q@),
{
    let ghost rs = records_view(recs@);
    let mut name = q.clone();
    loop
        invariant
            rs == records_view(recs@),
            encloser(rs, apex@, q@) == encloser(rs, apex@, name@),
        decreases name@.len(),
    {
        match name.parent() {
            Some(p) => {
                proof {
                    lemma_parent_shorter(name@);
                }
                if node_exists(recs, apex, &p) {
                    return p;
                }
                name = p;
            },
            None => {
                return name;
            },
        }
    }
}

/// The referral to the delegation at `cut`: its NS records, then the A and
/// AAAA records of their targets inside the zone.
fn referral(recs: &Vec<Record>, apex: &Name, cut: &Name) -> (r: Vec<Record>)
    ensures
        records_view(r@) == referral_of(records_view(recs@), apex@, cut@),
{
    let ghost rs = records_view(recs@);
    let k = cut.key();
    let own = owned_key(recs, apex, k.as_slice());
    let ns_t: &[u8] = &[78u8, 83u8];
    proof {
        assert(ns_t@ =~= ns_type());
    }
    let mut out = keep_type(&own, ns_t);
    let ghost ns = records_view(out@);
    let mut targets: Vec<Vec<u8>> = Vec::new();
    let mut i: usize = 0;
    proof {
        assert(keys_view(targets@) =~= glue_targets(ns.take(0), apex@));
    }
    while i < out.len()
        invariant
            0 <= i <= out@.len(),
            ns == records_view(out@),
            keys_view(targets@) == glue_targets(ns.take(i as int), apex@),
        decreases out@.len() - i,
    {
        let r = &out[i];
        let ghost prev = targets@;
        let ghost rv = record_view(*r);
        proof {
            assert(ns.take(i + 1).drop_last() =~= ns.take(i as int));
            assert(ns.take(i + 1).last() == rv);
        }
        if r.rdata.len() > 0 {
            proof {
                assert(rv.rdata[0] == string_bytes(&r.rdata@[0]));
            }
            match Name::parse(r.rdata[0].as_str(), None) {
                Ok(t) => {
                    if t.is_at_or_below(apex) {
                        let tk = t.key();
                        if !contains_key(&targets, &tk) {
                            targets.push(tk);
                            proof {
                                assert(keys_view(targets@) =~= keys_view(prev).push(name_key(t@)));
                            }
                        }
                    }
                },
                Err(_) => {},
            }
        }
        i += 1;
    }
    proof {
        assert(ns.take(ns.len() as int) =~= ns);
    }
    let ghost tv = keys_view(targets@);
    let mut j: usize = 0;
    proof {
        assert(records_view(out@) =~= ns + glue(rs, apex@, tv.take(0)));
    }
    while j < targets.len()
        invariant
            0 <= j <= targets@.len(),
            rs == records_view(recs@),
            tv == keys_view(targets@),
            tv == glue_targets(ns, apex@),
            records_view(out@) == ns + glue(rs, apex@, tv.take(j as int)),
        decreases targets@.len() - j,
    {
        let g = owned_key(recs, apex, targets[j].as_slice());
        let ghost before = records_view(out@);
        push_addresses(&mut out, &g);
        proof {
            assert(tv.take(j + 1).drop_last() =~= tv.take(j as int));
            assert(tv.take(j + 1).last() == targets@[j as int]@);
            assert(records_view(out@) =~= ns + glue(rs, apex@, tv.take(j + 1)));
        }
        j += 1;
    }
    proof {
        assert(tv.take(tv.len() as int) =~= tv);
    }
    out
}

/// Whether `q` is one of the names in `seen`.
fn seen_contains(seen: &Vec<Name>, q: &Name) -> (b: bool)
    ensures
        b == seen_before(names_view(seen@), q@),
{
    let ghost sv = names_view(seen@);
    let mut i: usize = 0;
    while i < seen.len()
        invariant
            0 <= i <= seen@.len(),
            sv == names_view(seen@),
            forall|j: int| 0 <= j < i ==> name_key(#[trigger] sv[j]) != name_key(q@),
        decreases seen@.len() - i,
    {
        if seen[i] == *q {
            proof {
                assert(sv[i as int] == seen@[i as int]@);
            }
            return true;
        }
        proof {
            assert(sv[i as int] == seen@[i as int]@);
        }
        i += 1;
    }
    false
}

/// Whether only DS records are asked for.
fn asks_only_ds(types: &[String]) -> (b: bool)
    ensures
        b == ds_only(strings_view(types@)),
{
    let ghost tv = strings_view(types@);
    if types.len() == 0 {
        return false;
    }
    let ds: &[u8] = &[68u8, 83u8];
    proof {
        assert(ds@ =~= ds_type());
    }
    let mut i: usize = 0;
    while i < types.len()
        invariant
            0 <= i <= types@.len(),
            tv == strings_view(types@),
            ds@ == ds_type(),
            forall|j: int| 0 <= j < i ==> eq_ignore_case(#[trigger] tv[j], ds_type()),
        decreases types@.len() - i,
    {
        proof {
            assert(tv[i as int] == string_bytes(&types@[i as int]));
        }
        if !bytes_eq_ignore_case(types[i].as_str().as_bytes(), ds) {
            return false;
        }
        i += 1;
    }
    true
}

/// A copy of `r` as it appears in the answer to `q`.
fn answer_record(r: &Record, synthesised: bool, q: &Name) -> (a: Record)
    ensures
        record_view(a) == as_owner(record_view(*r), synthesised, q@),
{
    let mut a = r.clone();
    if synthesised {
        a.name = q.clone();
    }
    a
}

/// The records of `node` of the types asked for, as they appear in the
/// answer to `q`.
fn wanted_records(node: &Vec<Record>, types: &[String], synthesised: bool, q: &Name) -> (r: Vec<Record>)
    ensures
        records_view(r@) == wanted(records_view(node@), strings_view(types@), synthesised, q@),
{
    let ghost v = records_view(node@);
    let ghost tv = strings_view(types@);
    let mut out: Vec<Record> = Vec::new();
    let mut i: usize = 0;
    while i < node.len()
        invariant
            0 <= i <= node@.len(),
            v == records_view(node@),
            tv == strings_view(types@),
            records_view(out@) == wanted(v.take(i as int), tv, synthesised, q@),
        decreases node@.len() - i,
    {
        proof {
            assert(v.take(i + 1).drop_last() =~= v.take(i as int));
            assert(v.take(i + 1).last() == record_view(node@[i as int]));
        }
        if crate::wants(types, node[i].rtype.as_str().as_bytes()) {
            let ghost prev = out@;
            let a = answer_record(&node[i], synthesised, q);
            out.push(a);
            proof {
                assert(records_view(out@) =~= records_view(prev).push(record_view(a)));
            }
        }
        i += 1;
    }
    proof {
        assert(v.take(v.len() as int) =~= v);
    }
    out
}

/// Moves the records of `more` to the end of `out`.
fn append_records(out: &mut Vec<Record>, more: Vec<Record>)
    ensures
        records_view(final(out)@) == records_view(old(out)@) + records_view(more@),
{
    let mut more = more;
    let ghost m = more@;
    out.append(&mut more);
    proof {
        assert(records_view(out@) =~= records_view(old(out)@) + records_view(m));
    }
}

/// What the zone holds at a name.
enum Node {
    Found(Vec<Record>, bool),
    Empty,
    Missing,
}

/// What the zone holds at `q`: its records, or those of the wildcard that
/// covers it.
fn lookup_node(recs: &Vec<Record>, apex: &Name, q: &Name) -> (r: Node)
    ensures
        r matches Node::Found(v, synthesised) ==> lookup(records_view(recs@), apex@, q@) == (NodeV::Found { records: records_view(v@), synthesised }),
        r is Empty ==> lookup(records_view(recs@), apex@, q@) is Empty,
        r is Missing ==> lookup(records_view(recs@), apex@, q@) is Missing,
{
    let k = q.key();
    let own = owned_key(recs, apex, k.as_slice());
    if own.len() > 0 {
        return Node::Found(own, false);
    }
    if node_exists(recs, apex, q) {
        return Node::Empty;
    }
    let w = closest_encloser(recs, apex, q).wildcard();
    let wk = w.key();
    let wown = owned_key(recs, apex, wk.as_slice());
    if wown.len() > 0 {
        Node::Found(wown, true)
    } else if node_exists(recs, apex, &w) {
        Node::Empty
    } else {
        Node::Missing
    }
}

/// Where one step of an answer leads: the end, or a CNAME to follow.
enum Step {
    Done(Outcome),
    Follow(Name),
}

/// One step of answering `q`, after the CNAMEs in `records` were followed
/// through the names in `seen`.
fn resolve_step(
    recs: &Vec<Record>,
    apex: &Name,
    types: &[String],
    only_ds: bool,
    q: &Name,
    seen: &mut Vec<Name>,
    records: &mut Vec<Record>,
) -> (r: Step)
    requires
        only_ds == ds_only(strings_view(types@)),
        old(seen)@.len() <= MAX_CHAIN,
    ensures
        r matches Step::Done(o) ==> resolve_from(records_view(recs@), apex@, strings_view(types@), q@, names_view(old(seen)@), records_view(old(records)@)) == (AnswerV { records: records_view(final(records)@), outcome: o }),
        r matches Step::Follow(t) ==> resolve_from(records_view(recs@), apex@, strings_view(types@), q@, names_view(old(seen)@), records_view(old(records)@)) == resolve_from(records_view(recs@), apex@, strings_view(types@), t@, names_view(final(seen)@), records_view(final(records)@))
            && final(seen)@.len() == old(seen)@.len() + 1 && final(seen)@.len() <= MAX_CHAIN,
{
    let ghost rs = records_view(recs@);
    let ghost tv = strings_view(types@);
    let ghost sv = names_view(seen@);
    let ghost out = records_view(records@);
    if !q.is_at_or_below(apex) {
        return Step::Done(Outcome::Answer);
    }
    if seen_contains(seen, q) {
        return Step::Done(Outcome::Loop);
    }
    seen.push(q.clone());
    proof {
        assert(names_view(seen@) =~= sv.push(q@));
    }
    match find_cut(recs, apex, q, only_ds) {
        Some(c) => {
            let more = referral(recs, apex, &c);
            append_records(records, more);
            return Step::Done(Outcome::Referral);
        },
        None => {},
    }
    let (node, synthesised) = match lookup_node(recs, apex, q) {
        Node::Found(v, s) => (v, s),
        Node::Empty => {
            return Step::Done(Outcome::NoData);
        },
        Node::Missing => {
            return Step::Done(Outcome::NxDomain);
        },
    };
    let ghost nv = records_view(node@);
    let cname_t: &[u8] = &[67u8, 78u8, 65u8, 77u8, 69u8];
    proof {
        assert(cname_t@ =~= cname_type());
    }
    let follow = match find_type(&node, cname_t) {
        Some(ci) => if types.len() > 0 && !crate::wants(types, cname_t) {
            Some(ci)
        } else {
            None
        },
        None => None,
    };
    match follow {
        Some(ci) => {
            if seen.len() > MAX_CHAIN {
                return Step::Done(Outcome::Loop);
            }
            proof {
                lemma_first_of_type_found(nv, cname_type());
            }
            let c = &node[ci];
            proof {
                assert(nv[ci as int] == record_view(*c));
            }
            records.push(answer_record(c, synthesised, q));
            proof {
                assert(records_view(records@) =~= out.push(as_owner(nv[ci as int], synthesised, q@)));
            }
            if c.rdata.len() > 0 {
                proof {
                    assert(record_view(*c).rdata[0] == string_bytes(&c.rdata@[0]));
                }
                match Name::parse(c.rdata[0].as_str(), None) {
                    Ok(t) => Step::Follow(t),
                    Err(_) => Step::Done(Outcome::Answer),
                }
            } else {
                Step::Done(Outcome::Answer)
            }
        },
        None => {
            let got = wanted_records(&node, types, synthesised, q);
            let found = got.len() > 0;
            append_records(records, got);
            Step::Done(
                if found {
                    Outcome::Answer
                } else {
                    Outcome::NoData
                },
            )
        },
    }
}

/// Answers `qname` from `zone`, whose apex is `apex`, the way the zone's
/// authoritative server would. `types` are the types asked for, and none
/// asks for all of them, like ANY.
pub fn resolve(zone: &Zone, apex: &Name, qname: &Name, types: &[String]) -> (r: Response)
    ensures
        response_view(r) == resolve_spec(records_view(zone.records@), apex@, strings_view(types@), qname@),
{
    let recs = &zone.records;
    let ghost rs = records_view(recs@);
    let ghost tv = strings_view(types@);
    let ghost goal = resolve_spec(rs, apex@, tv, qname@);
    let only_ds = asks_only_ds(types);
    let mut records: Vec<Record> = Vec::new();
    let mut seen: Vec<Name> = Vec::new();
    let mut q = qname.clone();
    proof {
        assert(names_view(seen@) =~= Seq::<Seq<u8>>::empty());
        assert(records_view(records@) =~= Seq::<RecordV>::empty());
    }
    loop
        invariant
            rs == records_view(recs@),
            recs == &zone.records,
            tv == strings_view(types@),
            only_ds == ds_only(tv),
            seen@.len() <= MAX_CHAIN,
            goal == resolve_spec(rs, apex@, tv, qname@),
            goal == resolve_from(rs, apex@, tv, q@, names_view(seen@), records_view(records@)),
        decreases MAX_CHAIN + 1 - seen@.len(),
    {
        match resolve_step(recs, apex, types, only_ds, &q, &mut seen, &mut records) {
            Step::Done(outcome) => {
                let r = Response { records, outcome };
                proof {
                    assert(goal == (AnswerV { records: records_view(r.records@), outcome }));
                    assert(response_view(r) == goal);

                }
                return r;
            },
            Step::Follow(t) => {
                q = t;
            },
        }
    }
}

/// Parses a single name inside the zone with apex `apex`, as
/// [`qname_spec`] reads it.
pub fn parse_qname(raw: &str, apex: &Name) -> (r: Result<Name, Error>)
    ensures
        r is Ok <==> qname_spec(raw.spec_bytes(), apex@) is Some,
        r matches Ok(n) ==> qname_spec(raw.spec_bytes(), apex@) == Some(n@),
        r matches Err(e) ==> e is Query,
        r matches Err(Error::Query(m)) ==> string_bytes(&m) == qname_error(raw.spec_bytes(), apex@),
{
    let b = raw.as_bytes();
    let ghost rb = raw.spec_bytes();
    if b.len() == 0 {
        return Err(Error::Query(string_of("the query is empty")));
    }
    let root = Name::root();
    let is_dot = b.len() == 1 && b[0] == 46u8;
    let is_at = b.len() == 1 && b[0] == 64u8;
    proof {
        if b@.len() == 1 {
            if b@[0] == 46u8 {
                assert(rb =~= root_bytes());
            }
            if b@[0] == 64u8 {
                assert(rb =~= seq![64u8]);
            }
        }
        if rb == root_bytes() {
            assert(rb[0] == 46u8);
        }
        if rb == seq![64u8] {
            assert(rb[0] == 64u8);
        }
    }
    if b[0] == 46u8 && !(is_dot && *apex == root) {
        let mut m = string_of("--resolve takes a single name, not a subtree like ");
        crate::text::push_str(&mut m, raw);
        return Err(Error::Query(m));
    }
    let parsed = if is_at || ends_with_unescaped_dot_str(raw) {
        Name::parse(raw, Some(apex))
    } else {
        match Name::parse(raw, Some(&root)) {
            Ok(n) => if n.is_at_or_below(apex) {
                Ok(n)
            } else {
                Name::parse(raw, Some(apex))
            },
            Err(_) => Name::parse(raw, Some(apex)),
        }
    };
    let name = match parsed {
        Ok(n) => n,
        Err(m) => {
            return Err(Error::Query(m));
        },
    };
    if !name.is_at_or_below(apex) {
        return Err(Error::Query(message(name.as_str(), " is outside the zone ", apex.as_str())));
    }
    Ok(name)
}

/// Answers `raw` the way the zone's authoritative server would. `types`
/// are the types asked for, and none asks for all of them, like ANY.
pub fn run(zone: &Zone, raw: &str, types: &[String]) -> (r: Result<Response, Error>)
    ensures
        zone.origin is None ==> (r matches Err(Error::Query(m)) && string_bytes(&m)
            == "--resolve needs the zone's apex: add an SOA record or pass --origin".spec_bytes()),
        zone.origin matches Some(apex) ==> match qname_spec(raw.spec_bytes(), apex@) {
            Some(q) => (r matches Ok(resp) && response_view(resp) == resolve_spec(
                records_view(zone.records@),
                apex@,
                strings_view(types@),
                q,
            )),
            None => (r matches Err(Error::Query(m)) && string_bytes(&m) == qname_error(
                raw.spec_bytes(),
                apex@,
            )),
        },
{
    let apex = match &zone.origin {
        Some(a) => a,
        None => {
            return Err(Error::Query(string_of("--resolve needs the zone's apex: add an SOA record or pass --origin")));
        },
    };
    let qname = parse_qname(raw, apex)?;
    Ok(resolve(zone, apex, &qname, types))
}

} // verus!
