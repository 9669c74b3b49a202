//! The owner names a `<query>` argument selects.

use vstd::prelude::*;
use vstd::string::*;
use crate::error::Error;
use crate::name::{
    Name, parse_name, ends_with_unescaped_dot, ends_with_unescaped_dot_str, root_bytes, opt_bytes,
    name_key, at_or_below, has_empty_label, is_name, lemma_absolute_parses_as_itself, lemma_no_leading_dot,
    lemma_parse_gives_absolute, lemma_same_key_at_or_below, name_error,
};
use crate::text::{string_bytes, substr, string_of, lemma_cut_after_ascii};

verus! {

broadcast use vstd::utf8::encode_utf8_valid_utf8;

/// The query text without a leading dot, and whether it had one. `.` on
/// its own is the root with everything below it.
pub open spec fn strip_subtree(raw: Seq<u8>) -> (Seq<u8>, bool) {
    if raw.len() > 0 && raw[0] == 46u8 {
        if raw.len() == 1 {
            (root_bytes(), true)
        } else {
            (raw.skip(1), true)
        }
    } else {
        (raw, false)
    }
}

/// The names `raw` asks for. A name without a trailing dot is tried both as
/// absolute and relative to the origin.
pub open spec fn query_names(r: Seq<u8>, origin: Option<Seq<u8>>) -> Option<Seq<Seq<u8>>> {
    if r == seq![64u8] || ends_with_unescaped_dot(r) {
        match parse_name(r, origin) {
            Some(n) => Some(seq![n]),
            None => None,
        }
    } else {
        match parse_name(r, Some(root_bytes())) {
            Some(a) => Some(
                match origin {
                    Some(o) => match parse_name(r, Some(o)) {
                        Some(rel) => seq![a, rel],
                        None => seq![a],
                    },
                    None => seq![a],
                },
            ),
            None => None,
        }
    }
}

/// What `raw` selects: the names, and whether everything below them
/// counts too; `None` when it is no query.
pub open spec fn parse_query(raw: Seq<u8>, origin: Option<Seq<u8>>) -> Option<(Seq<Seq<u8>>, bool)> {
    let (r, subtree) = strip_subtree(raw);
    if r.len() == 0 {
        None
    } else {
        match query_names(r, origin) {
            Some(ns) => Some((ns, subtree)),
            None => None,
        }
    }
}

/// Why `raw` is no query, with `origin` as the origin.
pub open spec fn query_error(raw: Seq<u8>, origin: Option<Seq<u8>>) -> Seq<u8> {
    let r = strip_subtree(raw).0;
    if r.len() == 0 {
        "the query is empty".spec_bytes()
    } else if r == seq![64u8] || ends_with_unescaped_dot(r) {
        name_error(r, origin)
    } else {
        name_error(r, Some(root_bytes()))
    }
}

/// Whether a query for `names` selects owner `n`.
pub open spec fn query_selects(names: Seq<Seq<u8>>, subtree: bool, n: Seq<u8>) -> bool {
    exists|i: int|
        0 <= i < names.len() && if subtree {
            at_or_below(n, #[trigger] names[i])
        } else {
            name_key(n) == name_key(#[trigger] names[i])
        }
}

/// Asking for an owner by its full name always finds it.
pub proof fn lemma_owner_finds_itself(n: Seq<u8>, origin: Option<Seq<u8>>)
    requires
        is_name(n),
    ensures
        parse_query(n, origin) is Some,
        query_selects(parse_query(n, origin).unwrap().0, parse_query(n, origin).unwrap().1, n),
{
    lemma_absolute_parses_as_itself(n, origin);
    if n == root_bytes() {
        assert(strip_subtree(n) == (root_bytes(), true));
        let names = parse_query(n, origin).unwrap().0;
        assert(names[0] == n);
        assert(at_or_below(n, names[0]));
    } else {
        lemma_no_leading_dot(n);
        if n == seq![64u8] {
            assert(n.last() == 64u8);
        }
        let names = parse_query(n, origin).unwrap().0;
        assert(names[0] == n);
    }
}

/// The names a query asks for are absolute, without empty labels, when the
/// origin is absolute.
proof fn lemma_query_names_absolute(r: Seq<u8>, origin: Option<Seq<u8>>)
    requires
        origin matches Some(o) ==> ends_with_unescaped_dot(o),
    ensures
        query_names(r, origin) matches Some(ns) ==> forall|i: int|
            0 <= i < ns.len() ==> !has_empty_label(#[trigger] ns[i]),
{
    assert(root_bytes().drop_last() =~= Seq::<u8>::empty());
    lemma_parse_gives_absolute(r, origin);
    lemma_parse_gives_absolute(r, Some(root_bytes()));
    if let Some(o) = origin {
        lemma_parse_gives_absolute(r, Some(o));
    }
}

/// A query that matches a name still matches it with a dot in front,
/// which takes everything below the name too.
pub proof fn lemma_subtree_includes_exact(raw: Seq<u8>, origin: Option<Seq<u8>>, n: Seq<u8>)
    requires
        raw.len() > 0 ==> raw[0] != 46u8,
        origin matches Some(o) ==> ends_with_unescaped_dot(o),
        !has_empty_label(n),
    ensures
        parse_query(raw, origin) matches Some(pq) ==> (query_selects(pq.0, pq.1, n) ==> (
        parse_query(seq![46u8] + raw, origin) matches Some(sq) && query_selects(sq.0, sq.1, n))),
{
    let sub = seq![46u8] + raw;
    if raw.len() == 0 {
        assert(sub =~= root_bytes());
        lemma_dot_matches_everything(origin, n);
    } else {
        assert(sub.skip(1) =~= raw);
        assert(strip_subtree(raw) == (raw, false));
        assert(strip_subtree(sub) == (raw, true));
        if let Some(pq) = parse_query(raw, origin) {
            if query_selects(pq.0, pq.1, n) {
                let ns = pq.0;
                lemma_query_names_absolute(raw, origin);
                let i = choose|i: int| 0 <= i < ns.len() && name_key(n) == name_key(#[trigger] ns[i]);
                lemma_same_key_at_or_below(n, ns[i]);
                let sq = parse_query(sub, origin).unwrap();
                assert(sq.0 == ns);
                assert(at_or_below(n, sq.0[i]));
            }
        }
    }
}

/// `.` on its own matches every name.
pub proof fn lemma_dot_matches_everything(origin: Option<Seq<u8>>, n: Seq<u8>)
    ensures
        parse_query(root_bytes(), origin) is Some,
        query_selects(parse_query(root_bytes(), origin).unwrap().0, parse_query(root_bytes(), origin).unwrap().1, n),
{
    assert(root_bytes().drop_last() =~= Seq::<u8>::empty());
    assert(strip_subtree(root_bytes()) == (root_bytes(), true));
    let names = parse_query(root_bytes(), origin).unwrap().0;
    assert(names[0] == root_bytes());
    assert(at_or_below(n, names[0]));
}

/// What a `<query>` argument selects.
///
/// `www` or `www.example.com.` matches that owner exactly, a leading dot
/// (`.example.com`) matches that name and everything below it, and `.`
/// matches everything. A name without a trailing dot is tried both as
/// absolute and relative to the zone origin, so `www.example.com` and `www`
/// both find `www.example.com.`.
#[derive(Debug)]
pub struct Query {
    names: Vec<Name>,
    subtree: bool,
}

pub open spec fn names_view(ns: Seq<Name>) -> Seq<Seq<u8>> {
    ns.map_values(|n: Name| n@)
}

impl View for Query {
    type V = (Seq<Seq<u8>>, bool);

    closed spec fn view(&self) -> (Seq<Seq<u8>>, bool) {
        (names_view(self.names@), self.subtree)
    }
}

impl Query {
    pub fn parse(raw: &str, origin: Option<&Name>) -> (r: Result<Query, Error>)
        ensures
            r is Ok <==> parse_query(raw.spec_bytes(), opt_bytes(origin)) is Some,
            r matches Ok(q) ==> parse_query(raw.spec_bytes(), opt_bytes(origin)) == Some(q@),
            r matches Err(e) ==> e is Query,
            r matches Err(Error::Query(m)) ==> string_bytes(&m) == query_error(raw.spec_bytes(), opt_bytes(origin)),
    {
        let b = raw.as_bytes();
        let n = b.len();
        let ghost rb = raw.spec_bytes();
        let root = Name::root();
        let (text, subtree): (&str, bool) = if n > 0 && b[0] == 46u8 {
            if n == 1 {
                (root.as_str(), true)
            } else {
                proof {
                    lemma_cut_after_ascii(rb, 1);
                }
                (substr(raw, 1, n), true)
            }
        } else {
            (raw, false)
        };
        proof {
            if n > 0 && b[0] == 46u8 {
                if n == 1 {
                    assert(text.spec_bytes() =~= root_bytes());
                } else {
                    assert(text.spec_bytes() =~= rb.skip(1));
                }
            }
            assert(strip_subtree(rb) == (text.spec_bytes(), subtree));
        }
        if text.as_bytes().len() == 0 {
            return Err(Error::Query(string_of("the query is empty")));
        }
        let tb = text.as_bytes();
        let is_at = tb.len() == 1 && tb[0] == 64u8;
        proof {
            if is_at {
                assert(tb@ =~= seq![64u8]);
            } else if tb@.len() == 1 {
                assert(tb@[0] != seq![64u8][0]);
            }
        }
        let mut names: Vec<Name> = Vec::new();
        if is_at || ends_with_unescaped_dot_str(text) {
            match Name::parse(text, origin) {
                Ok(name) => names.push(name),
                Err(m) => {
                    return Err(Error::Query(m));
                },
            }
        } else {
            match Name::parse(text, Some(&root)) {
                Ok(name) => names.push(name),
                Err(m) => {
                    return Err(Error::Query(m));
                },
            }
            match origin {
                Some(o) => {
                    match Name::parse(text, Some(o)) {
                        Ok(relative) => names.push(relative),
                        Err(_) => {},
                    }
                },
                None => {},
            }
        }
        let q = Query { names, subtree };
        proof {
            let ns = query_names(text.spec_bytes(), opt_bytes(origin));
            assert(ns is Some);
            assert(names_view(q.names@) =~= ns->0);
        }
        Ok(q)
    }

    pub fn matches(&self, name: &Name) -> (r: bool)
        ensures
            r == query_selects(self@.0, self@.1, name@),
    {
        let mut i: usize = 0;
        while i < self.names.len()
            invariant
                0 <= i <= self.names@.len(),
                forall|j: int|
                    0 <= j < i ==> !(if self.subtree {
                        at_or_below(name@, #[trigger] names_view(self.names@)[j])
                    } else {
                        name_key(name@) == name_key(#[trigger] names_view(self.names@)[j])
                    }),
            decreases self.names@.len() - i,
        {
            let q = &self.names[i];
            let hit = if self.subtree {
                name.is_at_or_below(q)
            } else {
                name.eq(q)
            };
            if hit {
                proof {
                    assert(names_view(self.names@)[i as int] == q@);
                }
                return true;
            }
            proof {
                assert(names_view(self.names@)[i as int] == q@);
            }
            i += 1;
        }
        false
    }
}

} // verus!
