//! Query zone files: parse them, match records by owner, type and data,
//! and answer like the zone's authoritative server would.

pub mod data;
pub mod error;
pub mod lexer;
pub mod name;
pub mod query;
pub mod reprint;
pub mod resolve;
pub mod text;
pub mod ttl;
pub mod zone;

pub use error::Error;

use vstd::prelude::*;
use vstd::string::*;
use crate::name::Name;
use crate::text::{string_bytes, eq_ignore_case, bytes_eq_ignore_case, lower_seq, upper_seq, decimal_digits, decimal_string, push_str, push_ascii};
use crate::zone::{Record, RecordV, record_view, records_view, strings_view};
use crate::data::{DataQuery, DataV, data_view, data_selects, opt_octets, is_address_record};
use crate::query::{Query, query_selects};

verus! {

pub struct Options {
    pub query: String,
    /// `-` reads from stdin.
    pub file: String,
    /// Record types to keep, uppercased. Empty keeps every type.
    pub record_types: Vec<String>,
    /// Origin to start from, until the file sets its own `$ORIGIN`.
    pub origin: Option<Name>,
    pub json: bool,
    /// A name or IP address to look for in the rdata.
    pub data: Option<String>,
}

/// Whether a filter on `types` keeps records of type `rtype`: no types
/// keep everything, otherwise one has to match, ignoring case.
pub open spec fn types_want(types: Seq<Seq<u8>>, rtype: Seq<u8>) -> bool {
    types.len() == 0 || exists|i: int| 0 <= i < types.len() && eq_ignore_case(#[trigger] types[i], rtype)
}

impl Options {
    /// Whether `rtype` is one of the types asked for, ignoring case.
    pub fn wants_type(&self, rtype: &str) -> (r: bool)
        ensures
            r == types_want(strings_view(self.record_types@), rtype.spec_bytes()),
    {
        wants(self.record_types.as_slice(), rtype.as_bytes())
    }
}

/// Whether a filter on `types` keeps records of type `rtype`.
pub(crate) fn wants(types: &[String], rtype: &[u8]) -> (r: bool)
    ensures
        r == types_want(strings_view(types@), rtype@),
{
    let ghost tv = strings_view(types@);
    if types.len() == 0 {
        return true;
    }
    let mut i: usize = 0;
    while i < types.len()
        invariant
            0 <= i <= types@.len(),
            tv == strings_view(types@),
            forall|j: int| 0 <= j < i ==> !eq_ignore_case(#[trigger] tv[j], rtype@),
        decreases types@.len() - i,
    {
        proof {
            assert(tv[i as int] == string_bytes(&types@[i as int]));
        }
        if bytes_eq_ignore_case(types[i].as_str().as_bytes(), rtype) {
            return true;
        }
        i += 1;
    }
    false
}

/// Asking for types keeps a type however it is cased: writing it in upper
/// case keeps the same records.
pub proof fn lemma_types_ignore_case(types: Seq<Seq<u8>>, rtype: Seq<u8>)
    ensures
        types_want(types, rtype) == types_want(types, upper_seq(rtype)),
{
    assert(lower_seq(upper_seq(rtype)) =~= lower_seq(rtype));
}

/// Fields joined by single spaces.
pub open spec fn join_spaced(xs: Seq<Seq<u8>>) -> Seq<u8>
    decreases xs.len(),
{
    if xs.len() == 0 {
        Seq::empty()
    } else if xs.len() == 1 {
        xs[0]
    } else {
        join_spaced(xs.drop_last()) + seq![32u8] + xs.last()
    }
}

/// A record as a tab-separated zone file line: owner, TTL, class, type,
/// then the rdata fields separated by spaces.
pub open spec fn record_line(r: RecordV) -> Seq<u8> {
    r.name + seq![9u8] + decimal_digits(r.ttl as nat) + seq![9u8] + r.class + seq![9u8] + r.rtype
        + seq![9u8] + join_spaced(r.rdata)
}

/// Formats a record as a tab-separated zone file line.
pub fn format_record(r: &Record) -> (s: String)
    ensures
        string_bytes(&s) == record_line(record_view(*r)),
{
    let mut s = crate::text::string_of(r.name.as_str());
    push_ascii(&mut s, 9u8);
    let ttl = decimal_string(r.ttl as u64);
    push_str(&mut s, ttl.as_str());
    push_ascii(&mut s, 9u8);
    push_str(&mut s, r.class.as_str());
    push_ascii(&mut s, 9u8);
    push_str(&mut s, r.rtype.as_str());
    push_ascii(&mut s, 9u8);
    let ghost head = string_bytes(&s);
    let ghost rd = strings_view(r.rdata@);
    let mut i: usize = 0;
    proof {
        assert(head + join_spaced(rd.take(0)) =~= head);
    }
    while i < r.rdata.len()
        invariant
            0 <= i <= r.rdata@.len(),
            rd == strings_view(r.rdata@),
            string_bytes(&s) == head + join_spaced(rd.take(i as int)),
        decreases r.rdata@.len() - i,
    {
        if i > 0 {
            push_ascii(&mut s, 32u8);
        }
        push_str(&mut s, r.rdata[i].as_str());
        proof {
            let t = rd.take(i + 1);
            assert(t.drop_last() =~= rd.take(i as int));
            assert(t.last() == rd[i as int]);
            if i == 0 {
                assert(join_spaced(t) == rd[0]);
                assert(string_bytes(&s) =~= head + join_spaced(t));
            } else {
                assert(string_bytes(&s) =~= head + join_spaced(t));
            }
        }
        i += 1;
    }
    proof {
        assert(rd.take(rd.len() as int) =~= rd);
        assert(string_bytes(&s) =~= record_line(record_view(*r)));
    }
    s
}

/// ASCII uppercase of one character.
pub open spec fn upper_char(c: char) -> char {
    if 'a' <= c && c <= 'z' {
        ((c as u32) - 32) as char
    } else {
        c
    }
}

pub open spec fn upper_chars(s: Seq<char>) -> Seq<char> {
    s.map_values(|c: char| upper_char(c))
}

/// Reads one record type given to `--type`: uppercased, and an error when
/// it is empty.
pub fn record_type(raw: &str) -> (r: Result<String, String>)
    ensures
        r is Err <==> raw@.len() == 0,
        r matches Ok(t) ==> t@ == upper_chars(raw@),
        r matches Err(m) ==> string_bytes(&m) == "empty record type".spec_bytes(),
{
    let n = raw.unicode_len();
    if n == 0 {
        return Err(crate::text::string_of("empty record type"));
    }
    let mut out = String::new();
    let mut i: usize = 0;
    while i < n
        invariant
            0 <= i <= n,
            n == raw@.len(),
            out@ == upper_chars(raw@.take(i as int)),
        decreases n - i,
    {
        let c = raw.get_char(i);
        let u = if c >= 'a' && c <= 'z' {
            ((c as u8) - 32u8) as char
        } else {
            c
        };
        crate::text::string_push(&mut out, u);
        proof {
            assert(upper_chars(raw@.take(i + 1)) =~= upper_chars(raw@.take(i as int)).push(upper_char(c)));
        }
        i += 1;
    }
    proof {
        assert(raw@.take(n as int) =~= raw@);
    }
    Ok(out)
}

/// Whether a record passes the filters: the `--data` query, when there is
/// one, then the owner query, then the types. `addr` is the record's first
/// rdata field read as an IP address, when it is one.
pub open spec fn passes(data: Option<DataV>, query: (Seq<Seq<u8>>, bool), types: Seq<Seq<u8>>, r: RecordV, addr: Option<Seq<u8>>) -> bool {
    &&& match data {
        Some(d) => data_selects(d, r, addr),
        None => true,
    }
    &&& query_selects(query.0, query.1, r.name)
    &&& types_want(types, r.rtype)
}

/// Where the records that pass the filters stand, in zone order.
pub open spec fn selected(rs: Seq<RecordV>, addrs: Seq<Option<Seq<u8>>>, data: Option<DataV>, query: (Seq<Seq<u8>>, bool), types: Seq<Seq<u8>>) -> Seq<int>
    decreases rs.len(),
{
    if rs.len() == 0 {
        Seq::empty()
    } else {
        let prev = selected(rs.drop_last(), addrs, data, query, types);
        if passes(data, query, types, rs.last(), addrs[rs.len() - 1]) {
            prev.push(rs.len() - 1)
        } else {
            prev
        }
    }
}

/// The filters are all applied, each on its own: a record is selected
/// exactly when its owner is one the owner query selects, its type is one
/// asked for, and, when there is a `--data` query, that query selects it
/// too. The positions come in zone order, each once.
pub proof fn lemma_selected_exactly_when_every_filter_passes(
    rs: Seq<RecordV>,
    addrs: Seq<Option<Seq<u8>>>,
    data: Option<DataV>,
    query: (Seq<Seq<u8>>, bool),
    types: Seq<Seq<u8>>,
)
    requires
        addrs.len() == rs.len(),
    ensures
        ({
            let sel = selected(rs, addrs, data, query, types);
            &&& forall|j: int| 0 <= j < sel.len() ==> 0 <= #[trigger] sel[j] < rs.len()
            &&& forall|j: int, m: int| 0 <= j < m < sel.len() ==> sel[j] < sel[m]
            &&& forall|i: int| 0 <= i < rs.len() ==> (sel.contains(i) <==> {
                &&& query_selects(query.0, query.1, (#[trigger] rs[i]).name)
                &&& types_want(types, rs[i].rtype)
                &&& (data matches Some(d) ==> data_selects(d, rs[i], addrs[i]))
            })
        }),
    decreases rs.len(),
{
    let sel = selected(rs, addrs, data, query, types);
    if rs.len() > 0 {
        let init = rs.drop_last();
        let a0 = addrs.drop_last();
        lemma_selected_exactly_when_every_filter_passes(init, a0, data, query, types);
        lemma_selected_addrs_prefix(init, addrs, a0, data, query, types);
        let prev = selected(init, addrs, data, query, types);
        assert forall|i: int| 0 <= i < rs.len() implies (sel.contains(i) <==> {
            &&& query_selects(query.0, query.1, (#[trigger] rs[i]).name)
            &&& types_want(types, rs[i].rtype)
            &&& (data matches Some(d) ==> data_selects(d, rs[i], addrs[i]))
        }) by {
            if i < rs.len() - 1 {
                assert(init[i] == rs[i]);
                assert(a0[i] == addrs[i]);
                if sel.contains(i) {
                    let j = choose|j: int| 0 <= j < sel.len() && sel[j] == i;
                    if j >= prev.len() {
                        assert(sel[j] == rs.len() - 1);
                    } else {
                        assert(prev[j] == i);
                    }
                }
                if prev.contains(i) {
                    let j = choose|j: int| 0 <= j < prev.len() && prev[j] == i;
                    assert(sel[j] == i);
                }
            } else {
                if sel.contains(i) {
                    let j = choose|j: int| 0 <= j < sel.len() && sel[j] == i;
                    if j < prev.len() {
                        assert(prev[j] < rs.len() - 1);
                    }
                } else {
                    if passes(data, query, types, rs.last(), addrs[rs.len() - 1]) {
                        assert(sel[prev.len() as int] == i);
                    }
                }
            }
        }
    }
}

/// Reading the addresses of a longer zone changes nothing for the records
/// of its first part.
proof fn lemma_selected_addrs_prefix(
    rs: Seq<RecordV>,
    addrs: Seq<Option<Seq<u8>>>,
    a0: Seq<Option<Seq<u8>>>,
    data: Option<DataV>,
    query: (Seq<Seq<u8>>, bool),
    types: Seq<Seq<u8>>,
)
    requires
        rs.len() <= a0.len(),
        rs.len() <= addrs.len(),
        forall|i: int| 0 <= i < rs.len() ==> a0[i] == addrs[i],
    ensures
        selected(rs, addrs, data, query, types) == selected(rs, a0, data, query, types),
    decreases rs.len(),
{
    if rs.len() > 0 {
        lemma_selected_addrs_prefix(rs.drop_last(), addrs, a0, data, query, types);
    }
}

pub open spec fn opt_data(d: Option<&DataQuery>) -> Option<DataV> {
    match d {
        Some(q) => Some(data_view(*q)),
        None => None,
    }
}

pub open spec fn addrs_view(v: Seq<Option<Vec<u8>>>) -> Seq<Option<Seq<u8>>> {
    v.map_values(|o: Option<Vec<u8>>| opt_octets(o))
}

pub open spec fn indices_view(v: Seq<usize>) -> Seq<int> {
    v.map_values(|i: usize| i as int)
}

/// Where the records that `data`, `query` and `types` select stand, in
/// zone order. `first_addrs[i]` is the first rdata field of record `i`
/// read as an IP address, when it is one.
pub fn select(
    records: &Vec<Record>,
    first_addrs: &Vec<Option<Vec<u8>>>,
    data: Option<&DataQuery>,
    query: &Query,
    types: &[String],
) -> (r: Vec<usize>)
    requires
        first_addrs@.len() == records@.len(),
        data matches Some(d) && d is Addr ==> forall|i: int|
            0 <= i < records@.len() ==> !(is_address_record(#[trigger] record_view(records@[i]))
                && records@[i].rdata@.len() == 0),
    ensures
        indices_view(r@) == selected(
            records_view(records@),
            addrs_view(first_addrs@),
            opt_data(data),
            query@,
            strings_view(types@),
        ),
{
    let ghost rs = records_view(records@);
    let ghost av = addrs_view(first_addrs@);
    let ghost tv = strings_view(types@);
    let mut out: Vec<usize> = Vec::new();
    let mut i: usize = 0;
    while i < records.len()
        invariant
            0 <= i <= records@.len(),
            first_addrs@.len() == records@.len(),
            rs == records_view(records@),
            av == addrs_view(first_addrs@),
            tv == strings_view(types@),
            data matches Some(d) && d is Addr ==> forall|j: int|
                0 <= j < records@.len() ==> !(is_address_record(#[trigger] record_view(records@[j]))
                    && records@[j].rdata@.len() == 0),
            indices_view(out@) == selected(rs.take(i as int), av, opt_data(data), query@, tv),
        decreases records@.len() - i,
    {
        let r = &records[i];
        proof {
            assert(rs.take(i + 1).drop_last() =~= rs.take(i as int));
            assert(rs.take(i + 1).last() == record_view(*r));
            assert(av[i as int] == opt_octets(first_addrs@[i as int]));
        }
        let by_data = match data {
            Some(d) => {
                let addr = match &first_addrs[i] {
                    Some(a) => Some(a.clone()),
                    None => None,
                };
                d.matches(r, addr)
            },
            None => true,
        };
        if by_data && query.matches(&r.name) && wants(types, r.rtype.as_str().as_bytes()) {
            let ghost prev = out@;
            out.push(i);
            proof {
                assert(indices_view(out@) =~= indices_view(prev).push(i as int));
            }
        }
        i += 1;
    }
    proof {
        assert(rs.take(rs.len() as int) =~= rs);
    }
    out
}

} // verus!
