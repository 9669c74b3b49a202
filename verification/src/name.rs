//! Absolute domain names as written in zone files.
//!
//! A name is kept as the text it was written with, always ending in a dot.
//! Escapes such as `\.` and `\065` stay raw; comparisons go by the octets
//! that the labels stand for, ignoring ASCII case.
//!
//! Every [`Name`] holds [`is_name`]: that is its type invariant, and
//! [`Name::as_str`] states it. The laws here are stated over a name's text,
//! so those that require [`is_name`] hold of every [`Name`].

use vstd::prelude::*;
use vstd::string::*;
use vstd::std_specs::cmp::PartialEqSpec;
use crate::text::{string_bytes, lower, lower_seq, is_digit, to_lower, cut_point, substr, push_str, string_of, push_ascii, lemma_cut_after_ascii, ascii_string, message, bytes_equal};

verus! {

broadcast use vstd::utf8::encode_utf8_valid_utf8;

pub open spec fn root_bytes() -> Seq<u8> {
    seq![46u8]
}

/// How many backslashes `s` ends with.
pub open spec fn trailing_backslashes(s: Seq<u8>) -> nat
    decreases s.len(),
{
    if s.len() > 0 && s.last() == 92u8 {
        1 + trailing_backslashes(s.drop_last())
    } else {
        0
    }
}

/// `s` is an absolute name: it ends in a dot that no backslash escapes.
pub open spec fn ends_with_unescaped_dot(s: Seq<u8>) -> bool {
    s.len() > 0 && s.last() == 46u8 && trailing_backslashes(s.drop_last()) % 2 == 0
}

/// Where the first label of `s` ends: the first dot that isn't part of a
/// backslash escape.
pub open spec fn first_dot(s: Seq<u8>) -> Option<int>
    decreases s.len(),
{
    if s.len() == 0 {
        None
    } else if s[0] == 92u8 {
        if s.len() < 2 {
            None
        } else {
            match first_dot(s.skip(2)) {
                Some(k) => Some(k + 2),
                None => None,
            }
        }
    } else if s[0] == 46u8 {
        Some(0)
    } else {
        match first_dot(s.skip(1)) {
            Some(k) => Some(k + 1),
            None => None,
        }
    }
}

/// The labels of `s`, split at unescaped dots.
pub open spec fn split_labels(s: Seq<u8>) -> Seq<Seq<u8>>
    decreases s.len(),
{
    match first_dot(s) {
        Some(k) => if 0 <= k < s.len() {
            seq![s.take(k)] + split_labels(s.skip(k + 1))
        } else {
            seq![s]
        },
        None => seq![s],
    }
}

/// The labels of a name from left to right, without the root.
pub open spec fn name_labels(n: Seq<u8>) -> Seq<Seq<u8>> {
    if n == root_bytes() {
        Seq::empty()
    } else {
        split_labels(n.drop_last())
    }
}

pub open spec fn contains_empty(ls: Seq<Seq<u8>>) -> bool {
    exists|i: int| 0 <= i < ls.len() && (#[trigger] ls[i]).len() == 0
}

/// A name with an empty label, like `a..b.`.
pub open spec fn has_empty_label(n: Seq<u8>) -> bool {
    n != root_bytes() && contains_empty(split_labels(n.drop_last()))
}

/// What every [`Name`] holds: an absolute name, ending in a dot that no
/// backslash escapes, with no empty label.
pub open spec fn is_name(s: Seq<u8>) -> bool {
    ends_with_unescaped_dot(s) && !has_empty_label(s)
}

/// The number that a `\DDD` escape at the start of `l` stands for.
pub open spec fn escape_value(l: Seq<u8>) -> int {
    (l[1] - 48) * 100 + (l[2] - 48) * 10 + (l[3] - 48)
}

/// `l` starts with a `\DDD` escape of an octet.
pub open spec fn starts_with_ddd(l: Seq<u8>) -> bool {
    &&& l.len() >= 4
    &&& l[0] == 92u8
    &&& is_digit(l[1])
    &&& is_digit(l[2])
    &&& is_digit(l[3])
    &&& escape_value(l) <= 255
}

/// A label's octets with its escapes decoded and ASCII lowercased.
pub open spec fn octets(l: Seq<u8>) -> Seq<u8>
    decreases l.len(),
{
    if l.len() == 0 {
        Seq::empty()
    } else if starts_with_ddd(l) {
        seq![lower(escape_value(l) as u8)] + octets(l.skip(4))
    } else if l.len() >= 2 && l[0] == 92u8 {
        seq![lower(l[1])] + octets(l.skip(2))
    } else {
        seq![lower(l[0])] + octets(l.skip(1))
    }
}

/// Octets with a dot or backslash escaped again, so labels can be joined.
pub open spec fn escape_octets(o: Seq<u8>) -> Seq<u8>
    decreases o.len(),
{
    if o.len() == 0 {
        Seq::empty()
    } else if o.last() == 46u8 || o.last() == 92u8 {
        escape_octets(o.drop_last()) + seq![92u8, o.last()]
    } else {
        escape_octets(o.drop_last()) + seq![o.last()]
    }
}

/// Each label's octets, escaped, each followed by a dot.
pub open spec fn join_keys(ls: Seq<Seq<u8>>) -> Seq<u8>
    decreases ls.len(),
{
    if ls.len() == 0 {
        Seq::empty()
    } else {
        join_keys(ls.drop_last()) + escape_octets(octets(ls.last())) + seq![46u8]
    }
}

/// The canonical spelling of a name: two names are the same exactly when
/// their keys are.
pub open spec fn name_key(n: Seq<u8>) -> Seq<u8> {
    if name_labels(n).len() == 0 {
        root_bytes()
    } else {
        join_keys(name_labels(n))
    }
}

/// `n` is `a`, or a name below it: its labels end with those of `a`, octet
/// for octet.
pub open spec fn at_or_below(n: Seq<u8>, a: Seq<u8>) -> bool {
    let ln = name_labels(n);
    let la = name_labels(a);
    &&& la.len() <= ln.len()
    &&& forall|i: int|
        0 <= i < la.len() ==> octets(#[trigger] ln[ln.len() - la.len() + i]) == octets(la[i])
}

/// The name with its first label removed.
pub open spec fn parent_of(n: Seq<u8>) -> Option<Seq<u8>> {
    if n == root_bytes() {
        None
    } else {
        match first_dot(n) {
            Some(k) => if k + 1 >= n.len() {
                Some(root_bytes())
            } else {
                Some(n.skip(k + 1))
            },
            None => None,
        }
    }
}

/// The wildcard directly below `n`.
pub open spec fn wildcard_of(n: Seq<u8>) -> Seq<u8> {
    if n == root_bytes() {
        seq![42u8, 46u8]
    } else {
        seq![42u8, 46u8] + n
    }
}

/// What `raw` means as a name in a zone file, with `origin` as the origin.
/// `@` is the origin, names ending in an unescaped dot are absolute, and
/// anything else is relative to the origin.
pub open spec fn parse_name(raw: Seq<u8>, origin: Option<Seq<u8>>) -> Option<Seq<u8>> {
    let candidate = if raw == seq![64u8] {
        origin
    } else if raw == root_bytes() {
        Some(root_bytes())
    } else if trailing_backslashes(raw) % 2 == 1 {
        None
    } else if ends_with_unescaped_dot(raw) {
        Some(raw)
    } else {
        match origin {
            Some(o) => Some(
                raw + seq![46u8] + (if o == root_bytes() {
                    Seq::empty()
                } else {
                    o
                }),
            ),
            None => None,
        }
    };
    match candidate {
        Some(c) => if has_empty_label(c) {
            None
        } else {
            Some(c)
        },
        None => None,
    }
}

/// Why `raw` is no name, as [`parse_name`] reads it with `origin`.
pub open spec fn name_error(raw: Seq<u8>, origin: Option<Seq<u8>>) -> Seq<u8> {
    if raw == seq![64u8] && origin is None {
        "@ used with no origin set".spec_bytes()
    } else if raw != seq![64u8] && raw != root_bytes() && trailing_backslashes(raw) % 2 == 1 {
        "invalid name ".spec_bytes() + raw + ": it ends in a lone backslash".spec_bytes()
    } else if raw != seq![64u8] && raw != root_bytes() && !ends_with_unescaped_dot(raw) && origin is None {
        "relative name ".spec_bytes() + raw + " with no origin set".spec_bytes()
    } else {
        "invalid name ".spec_bytes() + raw
    }
}

pub proof fn lemma_first_dot(s: Seq<u8>)
    ensures
        first_dot(s) matches Some(k) ==> 0 <= k < s.len() && s[k] == 46u8,
    decreases s.len(),
{
    if s.len() > 0 {
        if s[0] == 92u8 {
            if s.len() >= 2 {
                lemma_first_dot(s.skip(2));
            }
        } else if s[0] != 46u8 {
            lemma_first_dot(s.skip(1));
        }
    }
}

pub proof fn lemma_split_labels_unfold(s: Seq<u8>)
    ensures
        first_dot(s) matches Some(k) ==> split_labels(s) == seq![s.take(k)] + split_labels(
            s.skip(k + 1),
        ),
        first_dot(s) is None ==> split_labels(s) == seq![s],
{
    lemma_first_dot(s);
}

pub proof fn lemma_backslashes_after_dot(a: Seq<u8>, b: Seq<u8>)
    ensures
        trailing_backslashes(a + seq![46u8] + b) == trailing_backslashes(b),
    decreases b.len(),
{
    let s = a + seq![46u8] + b;
    if b.len() == 0 {
        assert(s.last() == 46u8);
    } else {
        assert(s.last() == b.last());
        assert(s.drop_last() =~= a + seq![46u8] + b.drop_last());
        lemma_backslashes_after_dot(a, b.drop_last());
    }
}

/// What a parse gives, with an origin that is an absolute name, is an
/// absolute name without empty labels.
pub proof fn lemma_parse_gives_absolute(raw: Seq<u8>, origin: Option<Seq<u8>>)
    requires
        origin matches Some(o) ==> ends_with_unescaped_dot(o),
    ensures
        parse_name(raw, origin) matches Some(n) ==> ends_with_unescaped_dot(n) && !has_empty_label(n),
{
    if raw != seq![64u8] && raw != root_bytes() && trailing_backslashes(raw) % 2 == 0
        && !ends_with_unescaped_dot(raw) {
        if let Some(o) = origin {
            if o == root_bytes() {
                let c = raw + seq![46u8] + Seq::<u8>::empty();
                assert(c.drop_last() =~= raw);
            } else {
                let c = raw + seq![46u8] + o;
                assert(c.last() == o.last());
                assert(c.drop_last() =~= raw + seq![46u8] + o.drop_last());
                lemma_backslashes_after_dot(raw, o.drop_last());
            }
        }
    }
    if raw == root_bytes() {
        assert(root_bytes().drop_last() =~= Seq::<u8>::empty());
    }
}

/// An absolute name without empty labels parses as itself, whatever the
/// origin.
pub proof fn lemma_absolute_parses_as_itself(n: Seq<u8>, origin: Option<Seq<u8>>)
    requires
        is_name(n),
    ensures
        parse_name(n, origin) == Some(n),
{
    assert(n.last() == 46u8);
    if n == seq![64u8] {
        assert(n.last() == 64u8);
    }
    assert(trailing_backslashes(n) == 0);
}

/// A name read back from its own text is the same name: parsing is a
/// fixed point once the origin is an absolute name, as every [`Name`] is.
pub proof fn lemma_parse_round_trip(raw: Seq<u8>, origin: Option<Seq<u8>>)
    requires
        origin matches Some(o) ==> ends_with_unescaped_dot(o),
    ensures
        parse_name(raw, origin) matches Some(n) ==> parse_name(n, None) == Some(n) && ends_with_unescaped_dot(n),
{
    lemma_parse_gives_absolute(raw, origin);
    if let Some(n) = parse_name(raw, origin) {
        lemma_absolute_parses_as_itself(n, None);
    }
}

/// An absolute name other than the root, without empty labels, doesn't
/// start with a dot.
pub proof fn lemma_no_leading_dot(n: Seq<u8>)
    requires
        is_name(n),
        n != root_bytes(),
    ensures
        n[0] != 46u8,
{
    if n.len() == 1 {
        assert(n =~= root_bytes());
    }
    let d = n.drop_last();
    if n[0] == 46u8 {
        assert(d[0] == 46u8);
        lemma_split_labels_unfold(d);
        assert(first_dot(d) == Some(0int));
        assert(split_labels(d)[0] == d.take(0));
        assert(contains_empty(split_labels(d)));
    }
}

/// The wildcard directly below a name has that name as its parent.
pub proof fn lemma_wildcard_parent(n: Seq<u8>)
    requires
        n.len() > 0,
    ensures
        parent_of(wildcard_of(n)) == Some(n),
{
    let w = wildcard_of(n);
    assert(w[0] == 42u8);
    assert(w.skip(1)[0] == 46u8);
    assert(first_dot(w.skip(1)) == Some(0int));
    assert(first_dot(w) == Some(1int));
    if n == root_bytes() {
        assert(w.len() == 2);
    } else {
        assert(w.skip(2) =~= n);
        assert(w != root_bytes()) by {
            assert(w.len() != 1);
        }
    }
}

/// One octet as a key spells it: a dot or backslash escaped.
pub open spec fn escaped_octet(c: u8) -> Seq<u8> {
    if c == 46u8 || c == 92u8 {
        seq![92u8, c]
    } else {
        seq![c]
    }
}

pub proof fn lemma_escape_octets_front(c: u8, o: Seq<u8>)
    ensures
        escape_octets(seq![c] + o) == escaped_octet(c) + escape_octets(o),
    decreases o.len(),
{
    let s = seq![c] + o;
    if o.len() == 0 {
        assert(s.drop_last() =~= Seq::<u8>::empty());
        assert(s.last() == c);
        assert(escape_octets(Seq::<u8>::empty()) =~= Seq::<u8>::empty());
        assert(escape_octets(s) =~= escaped_octet(c) + escape_octets(o));
    } else {
        assert(s.drop_last() =~= seq![c] + o.drop_last());
        assert(s.last() == o.last());
        lemma_escape_octets_front(c, o.drop_last());
        if o.last() == 46u8 || o.last() == 92u8 {
            assert(escape_octets(s) =~= escaped_octet(c) + escape_octets(o));
        } else {
            assert(escape_octets(s) =~= escaped_octet(c) + escape_octets(o));
        }
    }
}

/// Reads one label's octets off the front of a key, up to the unescaped
/// dot that ends it, and what follows that dot.
pub open spec fn take_label(k: Seq<u8>) -> (Seq<u8>, Seq<u8>)
    decreases k.len(),
{
    if k.len() == 0 {
        (Seq::empty(), Seq::empty())
    } else if k[0] == 92u8 && k.len() >= 2 {
        let (o, r) = take_label(k.skip(2));
        (seq![k[1]] + o, r)
    } else if k[0] == 46u8 {
        (Seq::empty(), k.skip(1))
    } else {
        let (o, r) = take_label(k.skip(1));
        (seq![k[0]] + o, r)
    }
}

pub proof fn lemma_take_label(o: Seq<u8>, rest: Seq<u8>)
    ensures
        take_label(escape_octets(o) + seq![46u8] + rest) == (o, rest),
    decreases o.len(),
{
    let k = escape_octets(o) + seq![46u8] + rest;
    if o.len() == 0 {
        assert(escape_octets(o) =~= Seq::<u8>::empty());
        assert(k =~= seq![46u8] + rest);
        assert(k.skip(1) =~= rest);
    } else {
        let c = o[0];
        let t = o.skip(1);
        assert(o =~= seq![c] + t);
        lemma_escape_octets_front(c, t);
        lemma_take_label(t, rest);
        if c == 46u8 || c == 92u8 {
            assert(k.skip(2) =~= escape_octets(t) + seq![46u8] + rest);
            assert(seq![k[1]] + t =~= o);
        } else {
            assert(k.skip(1) =~= escape_octets(t) + seq![46u8] + rest);
            assert(seq![k[0]] + t =~= o);
        }
    }
}

/// The labels' octets that a key spells, read from the front.
pub open spec fn split_key(k: Seq<u8>) -> Seq<Seq<u8>>
    decreases k.len(),
{
    if k.len() == 0 {
        Seq::empty()
    } else {
        let (o, r) = take_label(k);
        if r.len() < k.len() {
            seq![o] + split_key(r)
        } else {
            seq![o]
        }
    }
}

pub proof fn lemma_join_keys_front(l: Seq<u8>, ls: Seq<Seq<u8>>)
    ensures
        join_keys(seq![l] + ls) == escape_octets(octets(l)) + seq![46u8] + join_keys(ls),
    decreases ls.len(),
{
    let s = seq![l] + ls;
    if ls.len() == 0 {
        assert(s.drop_last() =~= Seq::<Seq<u8>>::empty());
        assert(s.last() == l);
        assert(join_keys(s.drop_last()) =~= Seq::<u8>::empty());
        assert(join_keys(ls) =~= Seq::<u8>::empty());
        assert(join_keys(s) =~= escape_octets(octets(l)) + seq![46u8] + join_keys(ls));
    } else {
        assert(s.drop_last() =~= seq![l] + ls.drop_last());
        assert(s.last() == ls.last());
        lemma_join_keys_front(l, ls.drop_last());
        assert(join_keys(s) =~= escape_octets(octets(l)) + seq![46u8] + join_keys(ls));
    }
}

/// `s` holds no backslash, so it has no escapes.
pub open spec fn no_backslash(s: Seq<u8>) -> bool {
    forall|i: int| 0 <= i < s.len() ==> s[i] != 92u8
}

/// A label without escapes stands for its own bytes, lowercased.
proof fn lemma_plain_octets(l: Seq<u8>)
    requires
        no_backslash(l),
    ensures
        octets(l) == lower_seq(l),
    decreases l.len(),
{
    if l.len() > 0 {
        let t = l.skip(1);
        assert(no_backslash(t)) by {
            assert forall|i: int| 0 <= i < t.len() implies t[i] != 92u8 by {
                assert(t[i] == l[i + 1]);
            }
        }
        lemma_plain_octets(t);
        assert(lower_seq(l) =~= seq![lower(l[0])] + lower_seq(t));
    }
}

/// Octets without a dot or backslash need no escaping.
proof fn lemma_plain_escape(o: Seq<u8>)
    requires
        forall|i: int| 0 <= i < o.len() ==> o[i] != 46u8 && o[i] != 92u8,
    ensures
        escape_octets(o) == o,
    decreases o.len(),
{
    if o.len() > 0 {
        lemma_plain_escape(o.drop_last());
        assert(o.drop_last() + seq![o.last()] =~= o);
    }
}

/// Without backslashes, the first unescaped dot is the first dot.
proof fn lemma_plain_first_dot(s: Seq<u8>)
    requires
        no_backslash(s),
    ensures
        first_dot(s) matches Some(k) ==> forall|j: int| 0 <= j < k && j < s.len() ==> s[j] != 46u8,
        first_dot(s) is None ==> forall|j: int| 0 <= j < s.len() ==> s[j] != 46u8,
    decreases s.len(),
{
    if s.len() > 0 && s[0] != 46u8 {
        let t = s.skip(1);
        assert(no_backslash(t)) by {
            assert forall|i: int| 0 <= i < t.len() implies t[i] != 92u8 by {
                assert(t[i] == s[i + 1]);
            }
        }
        lemma_plain_first_dot(t);
        match first_dot(t) {
            Some(k) => {
                assert(first_dot(s) == Some(k + 1));
                assert forall|j: int| 0 <= j < k + 1 && j < s.len() implies s[j] != 46u8 by {
                    if j > 0 {
                        assert(s[j] == t[j - 1]);
                    }
                }
            },
            None => {
                assert(first_dot(s) is None);
                assert forall|j: int| 0 <= j < s.len() implies s[j] != 46u8 by {
                    if j > 0 {
                        assert(s[j] == t[j - 1]);
                    }
                }
            },
        }
    }
}

/// Without backslashes, the labels joined back by their keys are the text
/// lowercased.
proof fn lemma_plain_join(d: Seq<u8>)
    requires
        no_backslash(d),
    ensures
        join_keys(split_labels(d)) == lower_seq(d) + seq![46u8],
    decreases d.len(),
{
    lemma_split_labels_unfold(d);
    lemma_first_dot(d);
    lemma_plain_first_dot(d);
    match first_dot(d) {
        Some(k) => {
            let l = d.take(k);
            let rest = d.skip(k + 1);
            assert(no_backslash(rest)) by {
                assert forall|i: int| 0 <= i < rest.len() implies rest[i] != 92u8 by {
                    assert(rest[i] == d[i + k + 1]);
                }
            }
            lemma_plain_join(rest);
            lemma_join_keys_front(l, split_labels(rest));
            lemma_plain_octets(l);
            lemma_plain_escape(lower_seq(l));
            assert(lower_seq(d) + seq![46u8] =~= lower_seq(l) + seq![46u8] + (lower_seq(rest) + seq![46u8]));
        },
        None => {
            lemma_plain_octets(d);
            lemma_plain_escape(lower_seq(d));
            let ls = seq![d];
            assert(ls.drop_last() =~= Seq::<Seq<u8>>::empty());
            assert(ls.last() == d);
            assert(join_keys(ls.drop_last()) =~= Seq::<u8>::empty());
            assert(join_keys(ls) =~= Seq::<u8>::empty() + escape_octets(octets(d)) + seq![46u8]);
        },
    }
}

/// The key of a name written without backslashes is its text in lower
/// case.
pub proof fn lemma_plain_key_is_lowercase(n: Seq<u8>)
    requires
        n.len() > 0,
        n.last() == 46u8,
        no_backslash(n),
    ensures
        name_key(n) == lower_seq(n),
{
    if n == root_bytes() {
        assert(name_labels(n).len() == 0);
        assert(lower_seq(n) =~= root_bytes());
    } else {
        let d = n.drop_last();
        assert(no_backslash(d)) by {
            assert forall|i: int| 0 <= i < d.len() implies d[i] != 92u8 by {
                assert(d[i] == n[i]);
            }
        }
        lemma_plain_join(d);
        lemma_split_labels_nonempty(d);
        assert(lower_seq(n) =~= lower_seq(d) + seq![46u8]);
    }
}

/// The labels' octets of a name's labels.
pub open spec fn label_octets_of(ls: Seq<Seq<u8>>) -> Seq<Seq<u8>> {
    ls.map_values(|l: Seq<u8>| octets(l))
}

pub proof fn lemma_split_join(ls: Seq<Seq<u8>>)
    ensures
        split_key(join_keys(ls)) == label_octets_of(ls),
    decreases ls.len(),
{
    if ls.len() == 0 {
        assert(join_keys(ls) =~= Seq::<u8>::empty());
        assert(label_octets_of(ls) =~= Seq::<Seq<u8>>::empty());
    } else {
        let l = ls[0];
        let t = ls.skip(1);
        assert(ls =~= seq![l] + t);
        lemma_join_keys_front(l, t);
        lemma_take_label(octets(l), join_keys(t));
        lemma_split_join(t);
        let k = join_keys(ls);
        assert(join_keys(t).len() < k.len());
        assert(label_octets_of(ls) =~= seq![octets(l)] + label_octets_of(t));
    }
}

pub proof fn lemma_octets_nonempty(l: Seq<u8>)
    requires
        l.len() > 0,
    ensures
        octets(l).len() > 0,
{
}

/// Two names with the same key, neither with an empty label, have the same
/// labels octet for octet.
pub proof fn lemma_same_key_same_labels(a: Seq<u8>, b: Seq<u8>)
    requires
        !has_empty_label(a),
        !has_empty_label(b),
        name_key(a) == name_key(b),
    ensures
        name_labels(a).len() == name_labels(b).len(),
        forall|i: int| 0 <= i < name_labels(a).len() ==> octets(#[trigger] name_labels(a)[i]) == octets(name_labels(b)[i]),
{
    let la = name_labels(a);
    let lb = name_labels(b);
    lemma_split_join(la);
    lemma_split_join(lb);
    let root_split = split_key(root_bytes());
    assert(take_label(root_bytes()) == (Seq::<u8>::empty(), Seq::<u8>::empty())) by {
        assert(root_bytes().skip(1) =~= Seq::<u8>::empty());
    }
    assert(root_split =~= seq![Seq::<u8>::empty()]) by {
        assert(split_key(Seq::<u8>::empty()) =~= Seq::<Seq<u8>>::empty());
    }
    if la.len() == 0 && lb.len() > 0 {
        assert(label_octets_of(lb) == root_split);
        assert(lb[0].len() > 0) by {
            if lb[0].len() == 0 {
                assert(contains_empty(lb));
            }
        }
        lemma_octets_nonempty(lb[0]);
        assert(label_octets_of(lb)[0] == octets(lb[0]));
    }
    if lb.len() == 0 && la.len() > 0 {
        assert(label_octets_of(la) == root_split);
        assert(la[0].len() > 0) by {
            if la[0].len() == 0 {
                assert(contains_empty(la));
            }
        }
        lemma_octets_nonempty(la[0]);
        assert(label_octets_of(la)[0] == octets(la[0]));
    }
    if la.len() > 0 && lb.len() > 0 {
        assert(label_octets_of(la) == label_octets_of(lb));
        assert forall|i: int| 0 <= i < la.len() implies octets(#[trigger] la[i]) == octets(lb[i]) by {
            assert(label_octets_of(la)[i] == octets(la[i]));
            assert(label_octets_of(lb)[i] == octets(lb[i]));
        }
    }
}

/// Two names with the same key are each at or below the other.
pub proof fn lemma_same_key_at_or_below(a: Seq<u8>, b: Seq<u8>)
    requires
        !has_empty_label(a),
        !has_empty_label(b),
        name_key(a) == name_key(b),
    ensures
        at_or_below(a, b),
{
    lemma_same_key_same_labels(a, b);
}

pub proof fn lemma_first_dot_prefix(d: Seq<u8>, t: Seq<u8>)
    requires
        first_dot(d) is Some,
    ensures
        first_dot(d + t) == first_dot(d),
    decreases d.len(),
{
    let s = d + t;
    assert(s[0] == d[0]);
    if d[0] == 92u8 {
        assert(s.skip(2) =~= d.skip(2) + t);
        lemma_first_dot_prefix(d.skip(2), t);
    } else if d[0] != 46u8 {
        assert(s.skip(1) =~= d.skip(1) + t);
        lemma_first_dot_prefix(d.skip(1), t);
    }
}

/// Every byte is a backslash.
pub open spec fn all_backslashes(y: Seq<u8>) -> bool {
    forall|i: int| 0 <= i < y.len() ==> #[trigger] y[i] == 92u8
}

pub proof fn lemma_backslashes_concat(x: Seq<u8>, y: Seq<u8>)
    ensures
        trailing_backslashes(x + y) == if all_backslashes(y) {
            trailing_backslashes(x) + y.len()
        } else {
            trailing_backslashes(y)
        },
    decreases y.len(),
{
    if y.len() == 0 {
        assert(x + y =~= x);
    } else {
        let s = x + y;
        assert(s.last() == y.last());
        assert(s.drop_last() =~= x + y.drop_last());
        lemma_backslashes_concat(x, y.drop_last());
        if y.last() == 92u8 {
            if all_backslashes(y.drop_last()) {
                assert(all_backslashes(y)) by {
                    assert forall|i: int| 0 <= i < y.len() implies #[trigger] y[i] == 92u8 by {
                        if i < y.len() - 1 {
                            assert(y[i] == y.drop_last()[i]);
                        }
                    }
                }
            } else {
                let j = choose|j: int| 0 <= j < y.drop_last().len() && y.drop_last()[j] != 92u8;
                assert(y[j] != 92u8);
                assert(!all_backslashes(y));
            }
        } else {
            assert(y[y.len() - 1] != 92u8);
            assert(!all_backslashes(y));
        }
    }
}

pub proof fn lemma_first_dot_at_end(d: Seq<u8>)
    requires
        first_dot(d) is None,
        trailing_backslashes(d) % 2 == 0,
    ensures
        first_dot(d.push(46u8)) == Some(d.len() as int),
    decreases d.len(),
{
    let s = d.push(46u8);
    if d.len() == 0 {
        assert(s[0] == 46u8);
    } else if d[0] == 92u8 {
        if d.len() < 2 {
            assert(d.drop_last() =~= Seq::<u8>::empty());
            assert(d.last() == 92u8);
            assert(trailing_backslashes(Seq::<u8>::empty()) == 0);
            assert(trailing_backslashes(d) == 1);
        } else {
            let h = d.take(2);
            let r = d.skip(2);
            assert(d =~= h + r);
            lemma_backslashes_concat(h, r);
            assert(Seq::<u8>::empty() + r =~= r);
            lemma_backslashes_concat(Seq::<u8>::empty(), r);
            assert(h.drop_last() =~= seq![92u8]);
            assert(seq![92u8].drop_last() =~= Seq::<u8>::empty());
            assert(seq![92u8].last() == 92u8);
            assert(trailing_backslashes(Seq::<u8>::empty()) == 0);
            assert(trailing_backslashes(seq![92u8]) == 1);
            assert(h.last() == d[1]);
            if d[1] == 92u8 {
                assert(trailing_backslashes(h) == 2);
            } else {
                assert(trailing_backslashes(h) == 0);
            }
            assert(s.skip(2) =~= r.push(46u8));
            lemma_first_dot_at_end(r);
        }
    } else {
        let h = d.take(1);
        let r = d.skip(1);
        assert(d =~= h + r);
        lemma_backslashes_concat(h, r);
        assert(Seq::<u8>::empty() + r =~= r);
        lemma_backslashes_concat(Seq::<u8>::empty(), r);
        assert(h.drop_last() =~= Seq::<u8>::empty());
        assert(trailing_backslashes(h) == 0);
        assert(s.skip(1) =~= r.push(46u8));
        lemma_first_dot_at_end(r);
    }
}

/// The parent of an absolute name without empty labels, other than the
/// root, is such a name too, with the first label gone.
pub proof fn lemma_parent_labels(n: Seq<u8>)
    requires
        is_name(n),
        n != root_bytes(),
    ensures
        parent_of(n) is Some,
        name_labels(parent_of(n).unwrap()) == name_labels(n).drop_first(),
        ends_with_unescaped_dot(parent_of(n).unwrap()),
        !has_empty_label(parent_of(n).unwrap()),
{
    let d = n.drop_last();
    assert(n =~= d.push(46u8));
    lemma_split_labels_unfold(d);
    lemma_first_dot(d);
    match first_dot(d) {
        Some(k) => {
            lemma_first_dot_prefix(d, seq![46u8]);
            assert(d + seq![46u8] =~= n);
            let p = n.skip(k + 1);
            let rest = d.skip(k + 1);
            assert(p =~= rest.push(46u8));
            lemma_contains_empty_cons(d.take(k), split_labels(rest));
            if rest.len() == 0 {
                lemma_split_labels_unfold(rest);
                assert(split_labels(rest) =~= seq![rest]);
                lemma_contains_empty_cons(rest, Seq::<Seq<u8>>::empty());
                assert(contains_empty(split_labels(rest))) by {
                    assert(split_labels(rest)[0].len() == 0);
                }
            }
            assert(p != root_bytes()) by {
                assert(p.len() >= 2);
            }
            assert(p.drop_last() =~= rest);
            assert(d =~= d.take(k) + seq![46u8] + rest);
            lemma_backslashes_after_dot(d.take(k), rest);
            assert(name_labels(n).drop_first() =~= split_labels(rest));
        },
        None => {
            lemma_first_dot_at_end(d);
            assert(d.push(46u8) =~= n);
            assert(name_labels(n) =~= seq![d]);
            assert(root_bytes().drop_last() =~= Seq::<u8>::empty());
            assert(name_labels(n).drop_first() =~= Seq::<Seq<u8>>::empty());
        },
    }
}

/// The name `i` parents up from `n`.
pub open spec fn ancestor(n: Seq<u8>, i: nat) -> Option<Seq<u8>>
    decreases i,
{
    if i == 0 {
        Some(n)
    } else {
        match ancestor(n, (i - 1) as nat) {
            Some(p) => parent_of(p),
            None => None,
        }
    }
}

proof fn lemma_ancestor_labels(n: Seq<u8>, i: nat)
    requires
        is_name(n),
        i <= name_labels(n).len(),
    ensures
        ancestor(n, i) is Some,
        name_labels(ancestor(n, i).unwrap()) == name_labels(n).skip(i as int),
        ends_with_unescaped_dot(ancestor(n, i).unwrap()),
        !has_empty_label(ancestor(n, i).unwrap()),
    decreases i,
{
    if i == 0 {
        assert(name_labels(n).skip(0) =~= name_labels(n));
    } else {
        lemma_ancestor_labels(n, (i - 1) as nat);
        let p = ancestor(n, (i - 1) as nat).unwrap();
        assert(name_labels(p).len() > 0);
        assert(p != root_bytes());
        lemma_parent_labels(p);
        assert(name_labels(n).skip(i - 1).drop_first() =~= name_labels(n).skip(i as int));
    }
}

/// A name is at or below any name whose labels end its own.
proof fn lemma_suffix_at_or_below(n: Seq<u8>, p: Seq<u8>, i: int)
    requires
        0 <= i <= name_labels(n).len(),
        name_labels(p) == name_labels(n).skip(i),
    ensures
        at_or_below(n, p),
{
    let ln = name_labels(n);
    let lp = name_labels(p);
    assert forall|j: int| 0 <= j < lp.len() implies octets(#[trigger] ln[ln.len() - lp.len() + j]) == octets(lp[j]) by {
        assert(lp[j] == ln[i + j]);
    }
}

/// An absolute name without labels is the root.
proof fn lemma_no_labels_is_root(p: Seq<u8>)
    requires
        name_labels(p).len() == 0,
    ensures
        p == root_bytes(),
{
    if p != root_bytes() {
        lemma_split_labels_nonempty(p.drop_last());
    }
}

/// Walking up from a name through its parents reaches the root after one
/// step per label, and the name is at or below every name on the way,
/// whose labels are the last ones of the name.
pub proof fn lemma_ancestors(n: Seq<u8>)
    requires
        is_name(n),
    ensures
        forall|i: nat|
            i <= name_labels(n).len() ==> #[trigger] ancestor(n, i) is Some && at_or_below(
                n,
                ancestor(n, i).unwrap(),
            ) && name_labels(ancestor(n, i).unwrap()) == name_labels(n).skip(i as int),
        ancestor(n, name_labels(n).len()) == Some(root_bytes()),
        ancestor(n, name_labels(n).len() + 1) is None,
{
    assert forall|i: nat|
        i <= name_labels(n).len() implies #[trigger] ancestor(n, i) is Some && at_or_below(
        n,
        ancestor(n, i).unwrap(),
    ) && name_labels(ancestor(n, i).unwrap()) == name_labels(n).skip(i as int) by {
        lemma_ancestor_labels(n, i);
        lemma_suffix_at_or_below(n, ancestor(n, i).unwrap(), i as int);
    }
    let len = name_labels(n).len();
    lemma_ancestor_labels(n, len);
    assert(name_labels(n).skip(len as int) =~= Seq::<Seq<u8>>::empty());
    lemma_no_labels_is_root(ancestor(n, len).unwrap());
    assert(ancestor(n, (len + 1) as nat) == parent_of(ancestor(n, len).unwrap()));
}

pub proof fn lemma_join_keys_by_octets(l1: Seq<Seq<u8>>, l2: Seq<Seq<u8>>)
    requires
        label_octets_of(l1) == label_octets_of(l2),
    ensures
        join_keys(l1) == join_keys(l2),
    decreases l1.len(),
{
    assert(l1.len() == label_octets_of(l1).len());
    assert(l2.len() == label_octets_of(l2).len());
    if l1.len() > 0 {
        assert(label_octets_of(l1.drop_last()) =~= label_octets_of(l2.drop_last())) by {
            assert forall|j: int| 0 <= j < l1.len() - 1 implies label_octets_of(l1.drop_last())[j]
                == label_octets_of(l2.drop_last())[j] by {
                assert(label_octets_of(l1)[j] == label_octets_of(l2)[j]);
            }
        }
        assert(label_octets_of(l1)[l1.len() - 1] == label_octets_of(l2)[l1.len() - 1]);
        lemma_join_keys_by_octets(l1.drop_last(), l2.drop_last());
    }
}

/// A name is at or below another exactly when the other, compared by key,
/// is one of its ancestors.
pub proof fn lemma_below_is_ancestor(a: Seq<u8>, b: Seq<u8>)
    requires
        is_name(a),
        is_name(b),
    ensures
        at_or_below(a, b) <==> exists|i: nat|
            i <= name_labels(a).len() && name_key((#[trigger] ancestor(a, i)).unwrap()) == name_key(b),
{
    let la = name_labels(a);
    let lb = name_labels(b);
    if at_or_below(a, b) {
        let i = (la.len() - lb.len()) as nat;
        lemma_ancestor_labels(a, i);
        let p = ancestor(a, i).unwrap();
        let lp = name_labels(p);
        assert(label_octets_of(lp) =~= label_octets_of(lb)) by {
            assert forall|j: int| 0 <= j < lp.len() implies label_octets_of(lp)[j] == label_octets_of(lb)[j] by {
                assert(lp[j] == la[la.len() - lb.len() + j]);
            }
        }
        lemma_join_keys_by_octets(lp, lb);
        assert(name_key((ancestor(a, i)).unwrap()) == name_key(b));
    }
    if exists|i: nat| i <= la.len() && name_key((#[trigger] ancestor(a, i)).unwrap()) == name_key(b) {
        let i = choose|i: nat| i <= la.len() && name_key((#[trigger] ancestor(a, i)).unwrap()) == name_key(b);
        lemma_ancestor_labels(a, i);
        let p = ancestor(a, i).unwrap();
        lemma_same_key_same_labels(p, b);
        let lp = name_labels(p);
        assert forall|j: int| 0 <= j < lb.len() implies octets(#[trigger] la[la.len() - lb.len() + j]) == octets(lb[j]) by {
            assert(octets(lp[j]) == octets(lb[j]));
            assert(lp[j] == la[i + j]);
        }
    }
}

/// The wildcard below a name is a name too.
proof fn lemma_wildcard_is_name(n: Seq<u8>)
    requires
        is_name(n),
    ensures
        is_name(wildcard_of(n)),
{
    let w = wildcard_of(n);
    let star = seq![42u8];
    if n == root_bytes() {
        let d = w.drop_last();
        assert(d =~= star);
        assert(d.drop_last() =~= Seq::<u8>::empty());
        assert(first_dot(d.skip(1)) is None);
        assert(first_dot(d) is None);
        lemma_split_labels_unfold(d);
        lemma_contains_empty_cons(d, Seq::empty());
        assert(seq![d] + Seq::<Seq<u8>>::empty() =~= seq![d]);
    } else {
        let d = n.drop_last();
        let wd = w.drop_last();
        assert(wd =~= star + seq![46u8] + d);
        assert(w.last() == 46u8);
        lemma_backslashes_after_dot(star, d);
        assert(wd[0] == 42u8);
        assert(wd.skip(1)[0] == 46u8);
        assert(first_dot(wd.skip(1)) == Some(0int));
        assert(first_dot(wd) == Some(1int));
        lemma_split_labels_unfold(wd);
        assert(wd.take(1) =~= star);
        assert(wd.skip(2) =~= d);
        lemma_contains_empty_cons(star, split_labels(d));
        assert(w != root_bytes()) by {
            assert(w.len() != 1);
        }
    }
}

/// One octet written as a `\DDD` escape.
pub open spec fn ddd(b: u8) -> Seq<u8> {
    seq![92u8, (48 + b / 100) as u8, (48 + (b / 10) % 10) as u8, (48 + b % 10) as u8]
}

/// A label with every octet it stands for written as a `\DDD` escape.
pub open spec fn spell_label(l: Seq<u8>) -> Seq<u8>
    decreases l.len(),
{
    if l.len() == 0 {
        Seq::empty()
    } else if starts_with_ddd(l) {
        ddd(escape_value(l) as u8) + spell_label(l.skip(4))
    } else if l.len() >= 2 && l[0] == 92u8 {
        ddd(l[1]) + spell_label(l.skip(2))
    } else {
        ddd(l[0]) + spell_label(l.skip(1))
    }
}

/// Labels joined by dots.
pub open spec fn joined(ss: Seq<Seq<u8>>) -> Seq<u8>
    decreases ss.len(),
{
    if ss.len() <= 1 {
        if ss.len() == 1 {
            ss[0]
        } else {
            Seq::empty()
        }
    } else {
        ss[0] + seq![46u8] + joined(ss.skip(1))
    }
}

/// A name with every octet of every label written as a `\DDD` escape.
pub open spec fn spell_name(n: Seq<u8>) -> Seq<u8> {
    if n == root_bytes() {
        n
    } else {
        joined(name_labels(n).map_values(|l: Seq<u8>| spell_label(l))) + seq![46u8]
    }
}

proof fn lemma_ddd_octets(b: u8, x: Seq<u8>)
    ensures
        starts_with_ddd(ddd(b) + x),
        escape_value(ddd(b) + x) == b,
        (ddd(b) + x).skip(4) == x,
        octets(ddd(b) + x) == seq![lower(b)] + octets(x),
{
    let d = ddd(b) + x;
    assert(d[0] == 92u8);
    assert(d[1] == (48 + b / 100) as u8);
    assert(d[2] == (48 + (b / 10) % 10) as u8);
    assert(d[3] == (48 + b % 10) as u8);
    assert(b / 100 <= 2);
    assert((b / 100) * 100 + ((b / 10) % 10) * 10 + b % 10 == b);
    assert(d.skip(4) =~= x);
}

/// Spelling a label's octets as `\DDD` escapes keeps its octets.
pub proof fn lemma_spell_label_octets(l: Seq<u8>)
    ensures
        octets(spell_label(l)) == octets(l),
        l.len() > 0 ==> spell_label(l).len() > 0,
    decreases l.len(),
{
    if l.len() > 0 {
        if starts_with_ddd(l) {
            lemma_spell_label_octets(l.skip(4));
            lemma_ddd_octets(escape_value(l) as u8, spell_label(l.skip(4)));
        } else if l.len() >= 2 && l[0] == 92u8 {
            lemma_spell_label_octets(l.skip(2));
            lemma_ddd_octets(l[1], spell_label(l.skip(2)));
        } else {
            lemma_spell_label_octets(l.skip(1));
            lemma_ddd_octets(l[0], spell_label(l.skip(1)));
        }
    }
}

proof fn lemma_ddd_first_dot(b: u8, x: Seq<u8>)
    ensures
        first_dot(ddd(b) + x) == match first_dot(x) {
            Some(k) => Some(k + 4),
            None => None,
        },
{
    let d = ddd(b) + x;
    let d2 = d.skip(2);
    let d3 = d2.skip(1);
    assert(d[0] == 92u8);
    assert(d2[0] == (48 + (b / 10) % 10) as u8);
    assert(d3[0] == (48 + b % 10) as u8);
    assert(d3.skip(1) =~= x);
    assert(first_dot(d3) == match first_dot(x) {
        Some(k) => Some(k + 1),
        None => None,
    });
    assert(first_dot(d2) == match first_dot(x) {
        Some(k) => Some(k + 2),
        None => None,
    });
}

/// A spelled label has no dot of its own: the first dot after it is the
/// first dot of what follows.
proof fn lemma_spell_label_first_dot(l: Seq<u8>, x: Seq<u8>)
    ensures
        first_dot(spell_label(l) + x) == match first_dot(x) {
            Some(k) => Some(k + spell_label(l).len()),
            None => None,
        },
    decreases l.len(),
{
    if l.len() == 0 {
        assert(spell_label(l) + x =~= x);
    } else {
        let (v, rest) = if starts_with_ddd(l) {
            (escape_value(l) as u8, l.skip(4))
        } else if l.len() >= 2 && l[0] == 92u8 {
            (l[1], l.skip(2))
        } else {
            (l[0], l.skip(1))
        };
        assert(spell_label(l) == ddd(v) + spell_label(rest));
        lemma_spell_label_first_dot(rest, x);
        assert(spell_label(l) + x =~= ddd(v) + (spell_label(rest) + x));
        lemma_ddd_first_dot(v, spell_label(rest) + x);
    }
}

proof fn lemma_split_joined(ss: Seq<Seq<u8>>, ls: Seq<Seq<u8>>)
    requires
        ss.len() >= 1,
        ss.len() == ls.len(),
        forall|i: int| 0 <= i < ss.len() ==> #[trigger] ss[i] == spell_label(ls[i]),
    ensures
        split_labels(joined(ss)) == ss,
    decreases ss.len(),
{
    let j = joined(ss);
    lemma_split_labels_unfold(j);
    if ss.len() == 1 {
        lemma_spell_label_first_dot(ls[0], Seq::<u8>::empty());
        assert(ss[0] + Seq::<u8>::empty() =~= ss[0]);
        assert(seq![ss[0]] =~= ss);
    } else {
        let rest = joined(ss.skip(1));
        lemma_spell_label_first_dot(ls[0], seq![46u8] + rest);
        assert(j =~= ss[0] + (seq![46u8] + rest));
        assert(first_dot(seq![46u8] + rest) == Some(0int));
        assert(j.take(ss[0].len() as int) =~= ss[0]);
        assert(j.skip(ss[0].len() as int + 1) =~= rest);
        assert forall|i: int| 0 <= i < ss.skip(1).len() implies #[trigger] ss.skip(1)[i] == spell_label(
            ls.skip(1)[i],
        ) by {
            assert(ss.skip(1)[i] == ss[i + 1]);
            assert(ls.skip(1)[i] == ls[i + 1]);
        }
        lemma_split_joined(ss.skip(1), ls.skip(1));
        assert(seq![ss[0]] + ss.skip(1) =~= ss);
    }
}

proof fn lemma_joined_last(ss: Seq<Seq<u8>>)
    requires
        ss.len() >= 1,
        ss.last().len() > 0,
    ensures
        joined(ss).len() > 0,
        joined(ss).last() == ss.last().last(),
    decreases ss.len(),
{
    if ss.len() > 1 {
        assert(ss.skip(1).last() == ss.last());
        lemma_joined_last(ss.skip(1));
    }
}

proof fn lemma_spell_label_ends_in_digit(l: Seq<u8>)
    requires
        l.len() > 0,
    ensures
        spell_label(l).len() > 0,
        spell_label(l).last() != 92u8,
    decreases l.len(),
{
    let (v, rest) = if starts_with_ddd(l) {
        (escape_value(l) as u8, l.skip(4))
    } else if l.len() >= 2 && l[0] == 92u8 {
        (l[1], l.skip(2))
    } else {
        (l[0], l.skip(1))
    };
    assert(spell_label(l) == ddd(v) + spell_label(rest));
    if rest.len() > 0 {
        lemma_spell_label_ends_in_digit(rest);
    } else {
        assert(spell_label(rest) =~= Seq::<u8>::empty());
    }
}

/// Spelling every octet of a name as a `\DDD` escape gives a name that
/// parses as itself, with the same key and the same place in the tree:
/// it is at or below exactly the names the name is at or below.
pub proof fn lemma_spelled_name(n: Seq<u8>, b: Seq<u8>)
    requires
        is_name(n),
    ensures
        parse_name(spell_name(n), None) == Some(spell_name(n)),
        name_key(spell_name(n)) == name_key(n),
        at_or_below(spell_name(n), b) == at_or_below(n, b),
{
    if n != root_bytes() {
        let ls = name_labels(n);
        let ss = ls.map_values(|l: Seq<u8>| spell_label(l));
        let m = spell_name(n);
        lemma_split_labels_nonempty(n.drop_last());
        assert(ls.len() >= 1);
        assert forall|i: int| 0 <= i < ls.len() implies (#[trigger] ls[i]).len() > 0 by {
            if ls[i].len() == 0 {
                assert(contains_empty(ls));
            }
        }
        assert forall|i: int| 0 <= i < ss.len() implies #[trigger] ss[i] == spell_label(ls[i]) by {
        }
        lemma_split_joined(ss, ls);
        lemma_spell_label_ends_in_digit(ls.last());
        assert(ss.last() == spell_label(ls.last()));
        lemma_joined_last(ss);
        assert(m.drop_last() =~= joined(ss));
        assert(m != root_bytes()) by {
            assert(m.len() >= 2);
        }
        assert(name_labels(m) == ss);
        assert(m.last() == 46u8);
        assert(trailing_backslashes(m.drop_last()) == 0);
        assert(!contains_empty(ss)) by {
            if contains_empty(ss) {
                let i = choose|i: int| 0 <= i < ss.len() && (#[trigger] ss[i]).len() == 0;
                lemma_spell_label_octets(ls[i]);
            }
        }
        lemma_absolute_parses_as_itself(m, None);
        assert(label_octets_of(ss) =~= label_octets_of(ls)) by {
            assert forall|i: int| 0 <= i < ss.len() implies label_octets_of(ss)[i] == label_octets_of(ls)[i] by {
                lemma_spell_label_octets(ls[i]);
            }
        }
        lemma_join_keys_by_octets(ss, ls);
        let lb = name_labels(b);
        assert forall|j: int| 0 <= j < ss.len() implies octets(#[trigger] ss[j]) == octets(ls[j]) by {
            lemma_spell_label_octets(ls[j]);
        }
        if at_or_below(m, b) {
            assert forall|i: int| 0 <= i < lb.len() implies octets(
                #[trigger] ls[ls.len() - lb.len() + i],
            ) == octets(lb[i]) by {
                assert(octets(ss[ss.len() - lb.len() + i]) == octets(lb[i]));
                assert(octets(ss[ss.len() - lb.len() + i]) == octets(ls[ls.len() - lb.len() + i]));
            }
        }
        if at_or_below(n, b) {
            assert forall|i: int| 0 <= i < lb.len() implies octets(
                #[trigger] ss[ss.len() - lb.len() + i],
            ) == octets(lb[i]) by {
                assert(octets(ls[ls.len() - lb.len() + i]) == octets(lb[i]));
                assert(octets(ss[ss.len() - lb.len() + i]) == octets(ls[ls.len() - lb.len() + i]));
            }
        }
    } else {
        assert(root_bytes().drop_last() =~= Seq::<u8>::empty());
        lemma_absolute_parses_as_itself(n, None);
    }
}

/// An absolute domain name, always with a trailing dot. Escapes such as
/// `\.` are kept raw, and comparisons ignore ASCII case.
#[derive(Debug)]
pub struct Name {
    text: String,
}

impl View for Name {
    type V = Seq<u8>;

    closed spec fn view(&self) -> Seq<u8> {
        string_bytes(&self.text)
    }
}

/// Where `raw[from..end]` has its first unescaped dot.
fn next_dot(raw: &[u8], from: usize, end: usize) -> (r: Option<usize>)
    requires
        from <= end <= raw@.len(),
    ensures
        r matches Some(k) ==> from <= k < end && first_dot(raw@.subrange(from as int, end as int))
            == Some(k - from),
        r is None ==> first_dot(raw@.subrange(from as int, end as int)) is None,
{
    let ghost whole = raw@.subrange(from as int, end as int);
    let mut i = from;
    while i < end
        invariant
            from <= i <= end <= raw@.len(),
            whole == raw@.subrange(from as int, end as int),
            first_dot(whole) == (match first_dot(raw@.subrange(i as int, end as int)) {
                Some(k) => Some(k + (i - from)),
                None => None,
            }),
        decreases end - i,
    {
        let ghost cur = raw@.subrange(i as int, end as int);
        if raw[i] == 92u8 {
            if i + 1 < end {
                proof {
                    assert(cur.skip(2) =~= raw@.subrange(i + 2, end as int));
                }
                i = i + 2;
            } else {
                return None;
            }
        } else if raw[i] == 46u8 {
            return Some(i);
        } else {
            proof {
                assert(cur.skip(1) =~= raw@.subrange(i + 1, end as int));
            }
            i = i + 1;
        }
    }
    None
}

pub(crate) fn count_trailing_backslashes(raw: &[u8], end: usize) -> (r: usize)
    requires
        end <= raw@.len(),
    ensures
        r == trailing_backslashes(raw@.take(end as int)),
{
    let mut i = end;
    while i > 0 && raw[i - 1] == 92u8
        invariant
            i <= end <= raw@.len(),
            trailing_backslashes(raw@.take(end as int)) == (end - i) + trailing_backslashes(
                raw@.take(i as int),
            ),
        decreases i,
    {
        proof {
            assert(raw@.take(i as int).drop_last() =~= raw@.take(i - 1));
        }
        i = i - 1;
    }
    end - i
}

/// True when `raw` is an absolute name, ending in a dot that isn't escaped.
pub(crate) fn ends_with_unescaped_dot_str(raw: &str) -> (r: bool)
    ensures
        r == ends_with_unescaped_dot(raw.spec_bytes()),
{
    let b = raw.as_bytes();
    let n = b.len();
    if n == 0 || b[n - 1] != 46u8 {
        return false;
    }
    proof {
        assert(b@.drop_last() =~= b@.take(n - 1));
    }
    count_trailing_backslashes(b, n - 1) % 2 == 0
}

/// The octets of `raw[from..to]` as one label.
fn label_octets(raw: &[u8], from: usize, to: usize) -> (r: Vec<u8>)
    requires
        from <= to <= raw@.len(),
    ensures
        r@ == octets(raw@.subrange(from as int, to as int)),
{
    let ghost whole = raw@.subrange(from as int, to as int);
    let mut out: Vec<u8> = Vec::new();
    let mut i = from;
    while i < to
        invariant
            from <= i <= to <= raw@.len(),
            whole == raw@.subrange(from as int, to as int),
            octets(whole) == out@ + octets(raw@.subrange(i as int, to as int)),
        decreases to - i,
    {
        let ghost cur = raw@.subrange(i as int, to as int);
        let ghost prev = out@;
        let c = raw[i];
        if c == 92u8 && to - i > 3 && raw[i + 1] >= 48u8 && raw[i + 1] <= 57u8 && raw[i + 2]
            >= 48u8 && raw[i + 2] <= 57u8 && raw[i + 3] >= 48u8 && raw[i + 3] <= 57u8 {
            let v: u16 = (raw[i + 1] - 48) as u16 * 100 + (raw[i + 2] - 48) as u16 * 10 + (raw[i
                + 3] - 48) as u16;
            if v <= 255 {
                let o = to_lower(v as u8);
                proof {
                    assert(escape_value(cur) == v);
                    assert(starts_with_ddd(cur));
                    assert(cur.skip(4) =~= raw@.subrange(i + 4, to as int));
                }
                out.push(o);
                proof {
                    assert(out@ + octets(raw@.subrange(i + 4, to as int)) =~= prev + octets(cur));
                }
                i = i + 4;
                continue;
            }
        }
        if c == 92u8 && i + 1 < to {
            let o = to_lower(raw[i + 1]);
            proof {
                assert(!starts_with_ddd(cur));
                assert(cur.skip(2) =~= raw@.subrange(i + 2, to as int));
            }
            out.push(o);
            proof {
                assert(out@ + octets(raw@.subrange(i + 2, to as int)) =~= prev + octets(cur));
            }
            i = i + 2;
        } else {
            let o = to_lower(c);
            proof {
                assert(!starts_with_ddd(cur));
                assert(cur.skip(1) =~= raw@.subrange(i + 1, to as int));
            }
            out.push(o);
            proof {
                assert(out@ + octets(raw@.subrange(i + 1, to as int)) =~= prev + octets(cur));
            }
            i = i + 1;
        }
    }
    proof {
        assert(raw@.subrange(i as int, to as int) =~= Seq::<u8>::empty());
        assert(out@ + Seq::<u8>::empty() =~= out@);
    }
    out
}

/// A name has an empty label exactly when one of its labels is empty.
pub proof fn lemma_empty_label_among_labels(n: Seq<u8>)
    ensures
        has_empty_label(n) == contains_empty(name_labels(n)),
{
}

pub proof fn lemma_contains_empty_cons(a: Seq<u8>, ls: Seq<Seq<u8>>)
    ensures
        contains_empty(seq![a] + ls) == (a.len() == 0 || contains_empty(ls)),
{
    let all = seq![a] + ls;
    if contains_empty(ls) {
        let i = choose|i: int| 0 <= i < ls.len() && (#[trigger] ls[i]).len() == 0;
        assert(all[i + 1] == ls[i]);
    }
    if a.len() == 0 {
        assert(all[0] == a);
    }
    if contains_empty(all) {
        let i = choose|i: int| 0 <= i < all.len() && (#[trigger] all[i]).len() == 0;
        if i > 0 {
            assert(all[i] == ls[i - 1]);
        }
    }
}

pub proof fn lemma_split_labels_nonempty(s: Seq<u8>)
    ensures
        split_labels(s).len() >= 1,
{
    lemma_split_labels_unfold(s);
}

/// The bytes of each string.
pub open spec fn str_bytes(ls: Seq<&str>) -> Seq<Seq<u8>> {
    ls.map_values(|l: &str| l.spec_bytes())
}

/// The option's name as bytes.
pub open spec fn opt_bytes(o: Option<&Name>) -> Option<Seq<u8>> {
    match o {
        Some(n) => Some(n@),
        None => None,
    }
}

/// Appends `o`'s bytes to `key`, with a dot or backslash escaped.
fn push_escaped(key: &mut Vec<u8>, o: &[u8])
    ensures
        final(key)@ == old(key)@ + escape_octets(o@),
{
    let mut j: usize = 0;
    proof {
        assert(o@.take(0) =~= Seq::<u8>::empty());
        assert(key@ + Seq::<u8>::empty() =~= key@);
    }
    while j < o.len()
        invariant
            0 <= j <= o@.len(),
            key@ == old(key)@ + escape_octets(o@.take(j as int)),
        decreases o@.len() - j,
    {
        let c = o[j];
        proof {
            assert(o@.take(j + 1).drop_last() =~= o@.take(j as int));
        }
        if c == 46u8 || c == 92u8 {
            key.push(92u8);
        }
        key.push(c);
        proof {
            let t = o@.take(j + 1);
            assert(t.last() == c);
            if c == 46u8 || c == 92u8 {
                assert(key@ =~= old(key)@ + escape_octets(o@.take(j as int)) + seq![92u8, c]);
            } else {
                assert(key@ =~= old(key)@ + escape_octets(o@.take(j as int)) + seq![c]);
            }
        }
        j += 1;
    }
    proof {
        assert(o@.take(o@.len() as int) =~= o@);
    }
}

impl Name {
    #[verifier::type_invariant]
    spec fn well_formed(self) -> bool {
        is_name(string_bytes(&self.text))
    }

    pub fn root() -> (r: Name)
        ensures
            r@ == root_bytes(),
            is_name(r@),
    {
        let text = ascii_string(&[46u8]);
        proof {
            assert(string_bytes(&text) =~= root_bytes());
            assert(root_bytes().drop_last() =~= Seq::<u8>::empty());
        }
        Name { text }
    }

    pub fn is_root(&self) -> (r: bool)
        ensures
            r == (self@ == root_bytes()),
    {
        let b = self.text.as_str().as_bytes();
        let r = b.len() == 1 && b[0] == 46u8;
        proof {
            if r {
                assert(b@ =~= root_bytes());
            }
        }
        r
    }

    /// The name's text; it is always absolute, with no empty label.
    pub fn as_str(&self) -> (r: &str)
        ensures
            r.spec_bytes() == self@,
            is_name(self@),
    {
        proof {
            use_type_invariant(self);
        }
        self.text.as_str()
    }

    pub fn into_string(self) -> (r: String)
        ensures
            string_bytes(&r) == self@,
            is_name(self@),
    {
        proof {
            use_type_invariant(&self);
        }
        self.text
    }

    /// Parses `raw` as written in a zone file. `@` is the origin, names
    /// ending in an unescaped dot are absolute, and anything else is
    /// relative to `origin`.
    pub fn parse(raw: &str, origin: Option<&Name>) -> (r: Result<Name, String>)
        ensures
            r is Ok <==> parse_name(raw.spec_bytes(), opt_bytes(origin)) is Some,
            r matches Ok(n) ==> parse_name(raw.spec_bytes(), opt_bytes(origin)) == Some(n@),
            r matches Ok(n) ==> is_name(n@),
            r matches Err(m) ==> string_bytes(&m) == name_error(raw.spec_bytes(), opt_bytes(origin)),
    {
        let b = raw.as_bytes();
        let n = b.len();
        let ghost rb = raw.spec_bytes();
        let is_at = n == 1 && b[0] == 64u8;
        let is_dot = n == 1 && b[0] == 46u8;
        proof {
            if is_at {
                assert(rb =~= seq![64u8]);
            } else if n == 1 {
                assert(rb != seq![64u8] ==> true);
                assert(rb[0] != seq![64u8][0]);
            }
            if is_dot {
                assert(rb =~= root_bytes());
            } else if n == 1 {
                assert(rb[0] != root_bytes()[0]);
            }
            assert(b@.take(n as int) =~= rb);
        }
        proof {
            if let Some(o) = origin {
                use_type_invariant(o);
            }
        }
        let text = if is_at {
            match origin {
                Some(o) => string_of(o.as_str()),
                None => {
                    return Err(string_of("@ used with no origin set"));
                },
            }
        } else if is_dot {
            let t = ascii_string(&[46u8]);
            proof {
                assert(string_bytes(&t) =~= root_bytes());
            }
            t
        } else if count_trailing_backslashes(b, n) % 2 == 1 {
            return Err(message("invalid name ", raw, ": it ends in a lone backslash"));
        } else if ends_with_unescaped_dot_str(raw) {
            string_of(raw)
        } else {
            match origin {
                Some(o) => {
                    let mut text = string_of(raw);
                    push_ascii(&mut text, 46u8);
                    if !o.is_root() {
                        push_str(&mut text, o.as_str());
                    }
                    proof {
                        if o@ == root_bytes() {
                            assert(string_bytes(&text) =~= rb + seq![46u8] + Seq::<u8>::empty());
                        } else {
                            assert(string_bytes(&text) =~= rb + seq![46u8] + o@);
                        }
                    }
                    text
                },
                None => {
                    return Err(message("relative name ", raw, " with no origin set"));
                },
            }
        };
        if Name::has_empty_label(text.as_str()) {
            let mut m = string_of("invalid name ");
            push_str(&mut m, raw);
            return Err(m);
        }
        proof {
            lemma_parse_gives_absolute(rb, opt_bytes(origin));
        }
        Ok(Name { text })
    }

    /// Whether the name written `text` has an empty label, like checking
    /// its labels for an empty one without building the list.
    fn has_empty_label(text: &str) -> (r: bool)
        requires
            text.spec_bytes().len() > 0,
        ensures
            r == has_empty_label(text.spec_bytes()),
            r == contains_empty(name_labels(text.spec_bytes())),
    {
        proof {
            lemma_empty_label_among_labels(text.spec_bytes());
        }
        let b = text.as_bytes();
        if b.len() == 1 && b[0] == 46u8 {
            proof {
                assert(b@ =~= root_bytes());
            }
            return false;
        }
        let end = b.len() - 1;
        let mut start: usize = 0;
        proof {
            assert(b@.drop_last() =~= b@.subrange(0, end as int));
            assert(b@ != root_bytes()) by {
                if b@.len() == 1 {
                    assert(b@[0] != root_bytes()[0]);
                }
            }
        }
        loop
            invariant
                start <= end < b@.len(),
                text.spec_bytes() == b@,
                b@ != root_bytes(),
                contains_empty(split_labels(b@.drop_last())) == contains_empty(
                    split_labels(b@.subrange(start as int, end as int)),
                ),
            decreases end - start,
        {
            let ghost x = b@.subrange(start as int, end as int);
            proof {
                lemma_split_labels_unfold(x);
            }
            match next_dot(b, start, end) {
                Some(k) => {
                    proof {
                        assert(x.skip(k - start + 1) =~= b@.subrange(k + 1, end as int));
                        lemma_contains_empty_cons(x.take(k - start), split_labels(x.skip(k - start + 1)));
                    }
                    if k == start {
                        return true;
                    }
                    start = k + 1;
                },
                None => {
                    proof {
                        lemma_contains_empty_cons(x, Seq::empty());
                        assert(seq![x] + Seq::<Seq<u8>>::empty() =~= seq![x]);
                    }
                    return start == end;
                },
            }
        }
    }

    /// The labels from left to right, not including the root.
    pub fn labels(&self) -> (r: Vec<&str>)
        ensures
            str_bytes(r@) == name_labels(self@),
    {
        proof {
            use_type_invariant(self);
        }
        let mut out: Vec<&str> = Vec::new();
        if self.is_root() {
            proof {
                assert(str_bytes(out@) =~= Seq::<Seq<u8>>::empty());
            }
            return out;
        }
        let s = self.text.as_str();
        let b = s.as_bytes();
        let end = b.len() - 1;
        let mut start: usize = 0;
        proof {
            assert(self@.drop_last() =~= b@.subrange(0, end as int));
            assert(str_bytes(out@) =~= Seq::<Seq<u8>>::empty());
            assert(Seq::<Seq<u8>>::empty() + split_labels(self@.drop_last()) =~= split_labels(
                self@.drop_last(),
            ));
        }
        loop
            invariant
                start <= end < b@.len(),
                self@ == b@,
                self@ != root_bytes(),
                b@ == s.spec_bytes(),
                b@[end as int] == 46u8,
                start == 0 || b@[start - 1] == 46u8,
                split_labels(self@.drop_last()) == str_bytes(out@)
                    + split_labels(b@.subrange(start as int, end as int)),
            decreases end - start,
        {
            let ghost x = b@.subrange(start as int, end as int);
            let ghost prev = out@;
            proof {
                lemma_split_labels_unfold(x);
                if start > 0 {
                    lemma_cut_after_ascii(b@, start as int);
                }
                lemma_cut_after_ascii(b@, end as int + 1);
            }
            match next_dot(b, start, end) {
                Some(k) => {
                    proof {
                        lemma_first_dot(x);
                        assert(x[k - start] == b@[k as int]);
                        assert(cut_point(b@, k as int));
                        assert(x.skip(k - start + 1) =~= b@.subrange(k + 1, end as int));
                        assert(x.take(k - start) =~= b@.subrange(start as int, k as int));
                    }
                    out.push(substr(s, start, k));
                    proof {
                        assert(str_bytes(out@) =~= str_bytes(prev).push(x.take(k - start)));
                    }
                    start = k + 1;
                },
                None => {
                    proof {
                        assert(cut_point(b@, end as int));
                    }
                    out.push(substr(s, start, end));
                    proof {
                        assert(str_bytes(out@) =~= str_bytes(prev).push(x));
                    }
                    return out;
                },
            }
        }
    }

    /// The name lowercased, with escapes decoded except for a dot or
    /// backslash inside a label. Two names are the same exactly when their
    /// keys are.
    pub fn key(&self) -> (r: Vec<u8>)
        ensures
            r@ == name_key(self@),
            no_backslash(self@) ==> r@ == lower_seq(self@),
    {
        proof {
            use_type_invariant(self);
            if no_backslash(self@) {
                lemma_plain_key_is_lowercase(self@);
            }
        }
        if self.is_root() {
            let r = vec![46u8];
            proof {
                assert(r@ =~= root_bytes());
            }
            return r;
        }
        let b = self.text.as_str().as_bytes();
        let end = b.len() - 1;
        let mut start: usize = 0;
        let mut key: Vec<u8> = Vec::new();
        let ghost mut done: Seq<Seq<u8>> = Seq::empty();
        proof {
            assert(self@.drop_last() =~= b@.subrange(0, end as int));
            assert(done + split_labels(self@.drop_last()) =~= split_labels(self@.drop_last()));
            assert(key@ =~= join_keys(done));
        }
        loop
            invariant
                start <= end < b@.len(),
                self@ == b@,
                self@ != root_bytes(),
                split_labels(self@.drop_last()) == done + split_labels(
                    b@.subrange(start as int, end as int),
                ),
                key@ == join_keys(done),
            decreases end - start,
        {
            let ghost x = b@.subrange(start as int, end as int);
            proof {
                lemma_split_labels_unfold(x);
            }
            let found = next_dot(b, start, end);
            let to = match found {
                Some(k) => k,
                None => end,
            };
            let oct = label_octets(b, start, to);
            push_escaped(&mut key, oct.as_slice());
            key.push(46u8);
            let ghost label = b@.subrange(start as int, to as int);
            proof {
                let old_done = done;
                done = done.push(label);
                assert(done.drop_last() =~= old_done);
                assert(key@ =~= join_keys(done));
            }
            match found {
                Some(k) => {
                    proof {
                        assert(x.skip(k - start + 1) =~= b@.subrange(k + 1, end as int));
                        assert(x.take(k - start) =~= label);
                        assert(split_labels(self@.drop_last()) =~= done + split_labels(
                            b@.subrange(k + 1, end as int),
                        ));
                    }
                    start = k + 1;
                },
                None => {
                    proof {
                        assert(split_labels(self@.drop_last()) =~= done);
                        lemma_split_labels_nonempty(self@.drop_last());
                        use_type_invariant(self);
                        if no_backslash(self@) {
                            lemma_plain_key_is_lowercase(self@);
                        }
                    }
                    return key;
                },
            }
        }
    }

    pub fn is_at_or_below(&self, ancestor: &Name) -> (r: bool)
        ensures
            r == at_or_below(self@, ancestor@),
    {
        let ours = self.labels();
        let theirs = ancestor.labels();
        let ghost ln = name_labels(self@);
        let ghost la = name_labels(ancestor@);
        if ours.len() < theirs.len() {
            proof {
                assert(ln.len() == ours@.len());
                assert(la.len() == theirs@.len());
            }
            return false;
        }
        let n_ours = ours.len();
        let split = n_ours - theirs.len();
        let mut i: usize = 0;
        while i < theirs.len()
            invariant
                ln == str_bytes(ours@),
                la == str_bytes(theirs@),
                ln == name_labels(self@),
                la == name_labels(ancestor@),
                theirs@.len() <= ours@.len(),
                n_ours == ours@.len(),
                split == ours@.len() - theirs@.len(),
                0 <= i <= theirs@.len(),
                forall|j: int|
                    0 <= j < i ==> octets(#[trigger] ln[ln.len() - la.len() + j]) == octets(la[j]),
            decreases theirs@.len() - i,
        {
            let a = ours[split + i].as_bytes();
            let c = theirs[i].as_bytes();
            let oa = label_octets(a, 0, a.len());
            let oc = label_octets(c, 0, c.len());
            proof {
                assert(a@.subrange(0, a@.len() as int) =~= a@);
                assert(c@.subrange(0, c@.len() as int) =~= c@);
                assert(ln[ln.len() - la.len() + i] == a@);
                assert(la[i as int] == c@);
            }
            if !bytes_equal(oa.as_slice(), oc.as_slice()) {
                proof {
                    assert(!(octets(ln[ln.len() - la.len() + i]) == octets(la[i as int])));
                }
                return false;
            }
            i += 1;
        }
        true
    }

    /// The name with its leftmost label removed, or `None` for the root.
    pub fn parent(&self) -> (r: Option<Name>)
        ensures
            r matches Some(p) ==> parent_of(self@) == Some(p@) && is_name(p@),
            r is None ==> parent_of(self@) is None,
    {
        proof {
            use_type_invariant(self);
        }
        if self.is_root() {
            return None;
        }
        let s = self.text.as_str();
        let b = s.as_bytes();
        let n = b.len();
        proof {
            assert(b@.subrange(0, n as int) =~= b@);
        }
        match next_dot(b, 0, n) {
            Some(k) => {
                if k + 1 >= n {
                    Some(Name::root())
                } else {
                    proof {
                        lemma_first_dot(b@);
                        lemma_cut_after_ascii(b@, k + 1);
                    }
                    let rest = substr(s, k + 1, n);
                    proof {
                        assert(rest.spec_bytes() =~= b@.skip(k + 1));
                        lemma_parent_labels(b@);
                    }
                    Some(Name { text: string_of(rest) })
                }
            },
            None => None,
        }
    }

    /// The wildcard directly below this name, `*.<name>`.
    pub fn wildcard(&self) -> (r: Name)
        ensures
            r@ == wildcard_of(self@),
            is_name(r@),
    {
        proof {
            use_type_invariant(self);
            lemma_wildcard_is_name(self@);
        }
        let mut text = ascii_string(&[42u8, 46u8]);
        proof {
            assert(string_bytes(&text) =~= seq![42u8, 46u8]);
        }
        if !self.is_root() {
            push_str(&mut text, self.as_str());
        }
        Name { text }
    }
}

impl Clone for Name {
    fn clone(&self) -> (r: Name)
        ensures
            r@ == self@,
            is_name(r@),
    {
        proof {
            use_type_invariant(self);
        }
        Name { text: self.text.clone() }
    }
}

/// Names are the same when their octets are, ignoring ASCII case, however
/// they're escaped.
impl PartialEq for Name {
    fn eq(&self, other: &Name) -> (r: bool) {
        let a = self.key();
        let b = other.key();
        bytes_equal(a.as_slice(), b.as_slice())
    }
}

impl vstd::std_specs::cmp::PartialEqSpecImpl for Name {
    open spec fn obeys_eq_spec() -> bool {
        true
    }

    open spec fn eq_spec(&self, other: &Name) -> bool {
        name_key(self@) == name_key(other@)
    }
}

/// Two names are equal exactly when their keys are.
pub proof fn lemma_equal_exactly_when_keys_are(a: Name, b: Name)
    ensures
        a.eq_spec(&b) <==> name_key(a@) == name_key(b@),
{
}

impl Eq for Name {

}

} // verus!
