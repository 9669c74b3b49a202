//! Selecting records by what their rdata holds rather than by owner.

use vstd::prelude::*;
use vstd::string::*;
use crate::error::Error;
use crate::name::{Name, parse_name, opt_bytes};
use crate::query::{Query, parse_query, query_selects, query_error};
use crate::text::{string_bytes, bytes_equal, lemma_ascii_str};
use crate::zone::{Record, RecordV, record_view, strings_view, name_fields, name_fields_of, usizes_view};

verus! {

/// What a `--data` value selects, by looking at a record's rdata instead of
/// its owner.
///
/// An IP address, held as its octets (4 for IPv4, 16 for IPv6), matches A
/// and AAAA records holding the same address, however it's written.
/// Anything else is a name, read like the positional query (so
/// `.example.net` matches everything below it), and matches records with
/// that name in one of their name fields: an MX exchange, a CNAME target,
/// an SRV target and so on, but never a TXT string or an MX preference.
#[derive(Debug)]
pub enum DataQuery {
    Addr(Vec<u8>),
    Name(Query),
}

/// A `--data` query as plain values: an address's octets, or the names of
/// a query and whether it takes the subtree below them.
pub enum DataV {
    Addr(Seq<u8>),
    Name(Seq<Seq<u8>>, bool),
}

pub open spec fn data_view(d: DataQuery) -> DataV {
    match d {
        DataQuery::Addr(a) => DataV::Addr(a@),
        DataQuery::Name(q) => DataV::Name(q@.0, q@.1),
    }
}

pub open spec fn opt_octets(o: Option<Vec<u8>>) -> Option<Seq<u8>> {
    match o {
        Some(v) => Some(v@),
        None => None,
    }
}

/// RFC 3597 generic rdata, `\#` and then opaque hex.
pub open spec fn is_generic(r: RecordV) -> bool {
    r.rdata.len() > 0 && r.rdata[0] == seq![92u8, 35u8]
}

pub open spec fn is_address_record(r: RecordV) -> bool {
    r.rtype == seq![65u8] || r.rtype == seq![65u8, 65u8, 65u8, 65u8]
}

/// The next name in an NSEC chain and an RRSIG's signer aren't things the
/// record points at, and every signed record would match the apex if they
/// counted.
pub open spec fn is_dnssec_chain(r: RecordV) -> bool {
    r.rtype == seq![78u8, 83u8, 69u8, 67u8] || r.rtype == seq![82u8, 82u8, 83u8, 73u8, 71u8]
}

/// Field `k` of `rdata` is a name that the query for `names` selects.
pub open spec fn field_selects(rdata: Seq<Seq<u8>>, k: int, names: Seq<Seq<u8>>, subtree: bool) -> bool {
    &&& 0 <= k < rdata.len()
    &&& parse_name(rdata[k], None) is Some
    &&& query_selects(names, subtree, parse_name(rdata[k], None).unwrap())
}

/// Whether a query for `names` selects `r` by one of its name fields.
pub open spec fn name_selects(names: Seq<Seq<u8>>, subtree: bool, r: RecordV) -> bool {
    !is_dnssec_chain(r) && exists|k: int|
        name_fields_of(r.rtype).contains(k) && #[trigger] field_selects(r.rdata, k, names, subtree)
}

/// Whether `d` selects record `r`, where `first_addr` is the record's first
/// rdata field read as an IP address, when it is one.
pub open spec fn data_selects(d: DataV, r: RecordV, first_addr: Option<Seq<u8>>) -> bool {
    if is_generic(r) {
        false
    } else {
        match d {
            DataV::Addr(a) => is_address_record(r) && first_addr == Some(a),
            DataV::Name(names, subtree) => name_selects(names, subtree, r),
        }
    }
}

/// Whether one of the fields of `rdata` at `fields` is a name that `q`
/// selects.
fn any_field_selects(rdata: &Vec<String>, fields: &Vec<usize>, q: &Query) -> (b: bool)
    ensures
        b == exists|k: int|
            usizes_view(fields@).contains(k) && #[trigger] field_selects(strings_view(rdata@), k, q@.0, q@.1),
{
    let ghost fv = usizes_view(fields@);
    let ghost rd = strings_view(rdata@);
    let mut j: usize = 0;
    while j < fields.len()
        invariant
            0 <= j <= fields@.len(),
            fv == usizes_view(fields@),
            rd == strings_view(rdata@),
            forall|m: int| 0 <= m < j ==> !field_selects(rd, #[trigger] fv[m], q@.0, q@.1),
        decreases fields@.len() - j,
    {
        let k = fields[j];
        proof {
            assert(fv[j as int] == k as int);
        }
        if k < rdata.len() {
            proof {
                assert(rd[k as int] == string_bytes(&rdata@[k as int]));
            }
            match Name::parse(rdata[k].as_str(), None) {
                Ok(n) => {
                    if q.matches(&n) {
                        proof {
                            assert(field_selects(rd, k as int, q@.0, q@.1));
                            assert(fv.contains(k as int));
                        }
                        return true;
                    }
                },
                Err(_) => {},
            }
        }
        j += 1;
    }
    proof {
        if exists|k: int| fv.contains(k) && #[trigger] field_selects(rd, k, q@.0, q@.1) {
            let k = choose|k: int| fv.contains(k) && #[trigger] field_selects(rd, k, q@.0, q@.1);
            let m = choose|m: int| 0 <= m < fv.len() && fv[m] == k;
            assert(!field_selects(rd, fv[m], q@.0, q@.1));
        }
    }
    false
}

/// A name given to `--data` selects a record exactly when the record's
/// rdata isn't generic (`\#`), its type is neither NSEC nor RRSIG, and one
/// of its name fields for that type (a PTR's or CNAME's target, an MX's
/// exchange, ...) reads as a name that the query selects. Every other type
/// with name fields, PTR among them, is searched.
pub proof fn lemma_data_name_selects_by_name_fields(
    names: Seq<Seq<u8>>,
    subtree: bool,
    r: RecordV,
    addr: Option<Seq<u8>>,
)
    ensures
        data_selects(DataV::Name(names, subtree), r, addr) <==> {
            &&& !(r.rdata.len() > 0 && r.rdata[0] == seq![92u8, 35u8])
            &&& r.rtype != "NSEC".spec_bytes()
            &&& r.rtype != "RRSIG".spec_bytes()
            &&& exists|k: int|
                0 <= k < r.rdata.len() && name_fields_of(r.rtype).contains(k) && parse_name(
                    #[trigger] r.rdata[k],
                    None,
                ) is Some && query_selects(names, subtree, parse_name(r.rdata[k], None)->0)
        },
{
    reveal_strlit("NSEC");
    reveal_strlit("RRSIG");
    lemma_ascii_str("NSEC");
    lemma_ascii_str("RRSIG");
    assert("NSEC".spec_bytes() =~= seq![78u8, 83u8, 69u8, 67u8]);
    assert("RRSIG".spec_bytes() =~= seq![82u8, 82u8, 83u8, 73u8, 71u8]);
    if exists|k: int|
        0 <= k < r.rdata.len() && name_fields_of(r.rtype).contains(k) && parse_name(
            #[trigger] r.rdata[k],
            None,
        ) is Some && query_selects(names, subtree, parse_name(r.rdata[k], None)->0) {
        let k = choose|k: int|
            0 <= k < r.rdata.len() && name_fields_of(r.rtype).contains(k) && parse_name(
                #[trigger] r.rdata[k],
                None,
            ) is Some && query_selects(names, subtree, parse_name(r.rdata[k], None)->0);
        assert(field_selects(r.rdata, k, names, subtree));
    }
    if name_selects(names, subtree, r) {
        let k = choose|k: int|
            name_fields_of(r.rtype).contains(k) && #[trigger] field_selects(r.rdata, k, names, subtree);
        assert(parse_name(r.rdata[k], None) is Some);
    }
}

/// Whether `q` selects `record` by one of its name fields.
fn name_matches(q: &Query, record: &Record) -> (b: bool)
    ensures
        b == name_selects(q@.0, q@.1, record_view(*record)),
{
    let ghost rv = record_view(*record);
    let t = record.rtype.as_str().as_bytes();
    let nsec_t: &[u8] = &[78u8, 83u8, 69u8, 67u8];
    let rrsig_t: &[u8] = &[82u8, 82u8, 83u8, 73u8, 71u8];
    proof {
        assert(nsec_t@ =~= seq![78u8, 83u8, 69u8, 67u8]);
        assert(rrsig_t@ =~= seq![82u8, 82u8, 83u8, 73u8, 71u8]);
    }
    if bytes_equal(t, nsec_t) || bytes_equal(t, rrsig_t) {
        return false;
    }
    let fields = name_fields(t);
    let found = any_field_selects(&record.rdata, &fields, q);
    proof {
        assert(t@ == rv.rtype);
        assert(strings_view(record.rdata@) == rv.rdata);
        assert(usizes_view(fields@) == name_fields_of(rv.rtype));
        assert(!is_dnssec_chain(rv));
    }
    found
}

impl DataQuery {
    /// Reads a `--data` value. `addr` is `raw` read as an IP address, when
    /// it is one; anything else is a name, read like the positional query.
    pub fn parse(raw: &str, addr: Option<Vec<u8>>, origin: Option<&Name>) -> (r: Result<DataQuery, Error>)
        ensures
            addr matches Some(a) ==> (r matches Ok(d) && data_view(d) == DataV::Addr(a@)),
            addr is None ==> (r is Ok <==> parse_query(raw.spec_bytes(), opt_bytes(origin)) is Some),
            addr is None ==> (r matches Ok(d) ==> parse_query(raw.spec_bytes(), opt_bytes(origin))
                matches Some(pq) && data_view(d) == DataV::Name(pq.0, pq.1)),
            r matches Err(e) ==> e is Query,
            r matches Err(Error::Query(m)) ==> string_bytes(&m) == query_error(raw.spec_bytes(), opt_bytes(origin)),
    {
        match addr {
            Some(a) => Ok(DataQuery::Addr(a)),
            None => match Query::parse(raw, origin) {
                Ok(q) => Ok(DataQuery::Name(q)),
                Err(e) => Err(e),
            },
        }
    }

    /// Whether this selects `record`. `first_addr` is the record's first
    /// rdata field read as an IP address, when it is one.
    pub fn matches(&self, record: &Record, first_addr: Option<Vec<u8>>) -> (b: bool)
        requires
            !(self is Addr && is_address_record(record_view(*record)) && record.rdata@.len() == 0),
        ensures
            b == data_selects(data_view(*self), record_view(*record), opt_octets(first_addr)),
    {
        let ghost rv = record_view(*record);
        let generic: &[u8] = &[92u8, 35u8];
        proof {
            assert(generic@ =~= seq![92u8, 35u8]);
        }
        if record.rdata.len() > 0 {
            proof {
                assert(rv.rdata[0] == string_bytes(&record.rdata@[0]));
            }
            if bytes_equal(record.rdata[0].as_str().as_bytes(), generic) {
                return false;
            }
        }
        let t = record.rtype.as_str().as_bytes();
        match self {
            DataQuery::Addr(a) => {
                let a_t: &[u8] = &[65u8];
                let aaaa_t: &[u8] = &[65u8, 65u8, 65u8, 65u8];
                proof {
                    assert(a_t@ =~= seq![65u8]);
                    assert(aaaa_t@ =~= seq![65u8, 65u8, 65u8, 65u8]);
                }
                if !(bytes_equal(t, a_t) || bytes_equal(t, aaaa_t)) {
                    return false;
                }
                proof {
                    assert(t@ == rv.rtype);
                    assert(is_address_record(rv));
                    assert(!is_generic(rv));
                    assert(data_view(*self) == DataV::Addr(a@));
                }
                let same = match &first_addr {
                    Some(f) => bytes_equal(f.as_slice(), a.as_slice()),
                    None => false,
                };
                proof {
                    assert(same == (opt_octets(first_addr) == Some(a@)));
                    assert(same == data_selects(data_view(*self), rv, opt_octets(first_addr)));
                }
                same
            },
            DataQuery::Name(q) => name_matches(q, record),
        }
    }
}

} // verus!
