//! Byte-level helpers shared by the parsers: ASCII case folding, decimal
//! digits, and the UTF-8 facts that let a slice of a string cut at ASCII
//! bytes become a string again.

use vstd::prelude::*;
use vstd::utf8::*;
use vstd::string::*;

verus! {

broadcast use encode_utf8_valid_utf8, encode_utf8_decode_utf8, decode_utf8_encode_utf8;

/// The UTF-8 bytes of a string.
pub open spec fn string_bytes(s: &String) -> Seq<u8> {
    encode_utf8(s@)
}

/// ASCII lowercase of one byte.
pub open spec fn lower(b: u8) -> u8 {
    if 0x41 <= b <= 0x5a {
        (b + 0x20) as u8
    } else {
        b
    }
}

/// ASCII uppercase of one byte.
pub open spec fn upper(b: u8) -> u8 {
    if 0x61 <= b <= 0x7a {
        (b - 0x20) as u8
    } else {
        b
    }
}

pub open spec fn lower_seq(s: Seq<u8>) -> Seq<u8> {
    s.map_values(|b: u8| lower(b))
}

pub open spec fn upper_seq(s: Seq<u8>) -> Seq<u8> {
    s.map_values(|b: u8| upper(b))
}

/// Equal ignoring ASCII case.
pub open spec fn eq_ignore_case(a: Seq<u8>, b: Seq<u8>) -> bool {
    lower_seq(a) == lower_seq(b)
}

pub open spec fn is_digit(b: u8) -> bool {
    0x30 <= b <= 0x39
}

pub open spec fn is_alpha(b: u8) -> bool {
    (0x41 <= b <= 0x5a) || (0x61 <= b <= 0x7a)
}

pub open spec fn all_digits(s: Seq<u8>) -> bool {
    forall|i: int| 0 <= i < s.len() ==> is_digit(#[trigger] s[i])
}

/// The number a run of decimal digits spells, most significant first.
pub open spec fn decimal(s: Seq<u8>) -> nat
    decreases s.len(),
{
    if s.len() == 0 {
        0
    } else {
        decimal(s.drop_last()) * 10 + (s.last() - 0x30) as nat
    }
}

pub fn to_lower(b: u8) -> (r: u8)
    ensures
        r == lower(b),
{
    if 0x41 <= b && b <= 0x5a {
        b + 0x20
    } else {
        b
    }
}

pub fn to_upper(b: u8) -> (r: u8)
    ensures
        r == upper(b),
{
    if 0x61 <= b && b <= 0x7a {
        b - 0x20
    } else {
        b
    }
}

/// Whether two byte slices are equal ignoring ASCII case.
pub fn bytes_eq_ignore_case(a: &[u8], b: &[u8]) -> (r: bool)
    ensures
        r == eq_ignore_case(a@, b@),
{
    if a.len() != b.len() {
        proof {
            assert(lower_seq(a@).len() != lower_seq(b@).len());
        }
        return false;
    }
    let mut i: usize = 0;
    while i < a.len()
        invariant
            a.len() == b.len(),
            0 <= i <= a.len(),
            forall|j: int| 0 <= j < i ==> lower(a@[j]) == lower(b@[j]),
        decreases a.len() - i,
    {
        if to_lower(a[i]) != to_lower(b[i]) {
            proof {
                assert(lower_seq(a@)[i as int] != lower_seq(b@)[i as int]);
            }
            return false;
        }
        i += 1;
    }
    proof {
        assert(lower_seq(a@) =~= lower_seq(b@));
    }
    true
}

/// A position at which a UTF-8 sequence can be cut: either end, or a byte
/// that starts a character.
pub open spec fn cut_point(b: Seq<u8>, i: int) -> bool {
    i == 0 || i == b.len() || (0 <= i < b.len() && !is_continuation_byte(b[i]))
}

/// Right after an ASCII byte a new character starts.
pub proof fn lemma_cut_after_ascii(b: Seq<u8>, i: int)
    requires
        valid_utf8(b),
        0 < i <= b.len(),
        b[i - 1] < 0x80,
    ensures
        cut_point(b, i),
{
    if i < b.len() {
        is_char_boundary_iff_not_is_continuation_byte(b, i - 1);
        valid_utf8_split(b, i - 1);
        let t = b.subrange(i - 1, b.len() as int);
        assert(t[0] == b[i - 1]);
        assert(valid_first_scalar(t));
        assert(pop_first_scalar(t) =~= b.subrange(i, b.len() as int));
        let u = b.subrange(i, b.len() as int);
        assert(valid_utf8(u));
        assert(u.len() > 0);
        assert(valid_first_scalar(u));
        assert(u[0] == b[i]);
    }
}

/// A slice of valid UTF-8 cut where characters start is valid UTF-8.
pub proof fn lemma_valid_slice(b: Seq<u8>, i: int, j: int)
    requires
        valid_utf8(b),
        0 <= i <= j <= b.len(),
        cut_point(b, i),
        cut_point(b, j),
    ensures
        valid_utf8(b.subrange(i, j)),
{
    is_char_boundary_start_end_of_seq(b);
    if i < b.len() {
        is_char_boundary_iff_not_is_continuation_byte(b, i);
    }
    valid_utf8_split(b, i);
    let t = b.subrange(i, b.len() as int);
    let k = j - i;
    is_char_boundary_start_end_of_seq(t);
    if k < t.len() {
        assert(t[k] == b[j]);
        is_char_boundary_iff_not_is_continuation_byte(t, k);
    }
    if k == 0 {
        assert(is_char_boundary(t, 0));
    }
    valid_utf8_split(t, k);
    assert(t.subrange(0, k) =~= b.subrange(i, j));
}

/// A cut point of valid UTF-8 is a character boundary.
pub proof fn lemma_cut_is_boundary(b: Seq<u8>, i: int)
    requires
        valid_utf8(b),
        0 <= i <= b.len(),
        cut_point(b, i),
    ensures
        is_char_boundary(b, i),
{
    is_char_boundary_start_end_of_seq(b);
    if 0 < i < b.len() {
        is_char_boundary_iff_not_is_continuation_byte(b, i);
    }
}

/// The part of `s` between two cut points.
pub fn substr(s: &str, from: usize, to: usize) -> (r: &str)
    requires
        from <= to <= s.spec_bytes().len(),
        cut_point(s.spec_bytes(), from as int),
        cut_point(s.spec_bytes(), to as int),
    ensures
        r.spec_bytes() == s.spec_bytes().subrange(from as int, to as int),
{
    let ghost b = s.spec_bytes();
    proof {
        lemma_cut_is_boundary(b, from as int);
    }
    let (_, rest) = s.split_at(from);
    let ghost rb = rest.spec_bytes();
    proof {
        assert(rb =~= b.subrange(from as int, b.len() as int));
        let k = (to - from) as int;
        if 0 < k < rb.len() {
            assert(rb[k] == b[to as int]);
        }
        assert(cut_point(rb, k));
        lemma_cut_is_boundary(rb, k);
    }
    let (r, _) = rest.split_at(to - from);
    proof {
        assert(r.spec_bytes() =~= b.subrange(from as int, to as int));
    }
    r
}

/// ASCII bytes on their own are valid UTF-8.
pub proof fn lemma_ascii_valid(b: Seq<u8>)
    requires
        forall|i: int| 0 <= i < b.len() ==> #[trigger] b[i] < 0x80,
    ensures
        valid_utf8(b),
    decreases b.len(),
{
    if b.len() > 0 {
        assert(pop_first_scalar(b) =~= b.skip(1));
        lemma_ascii_valid(b.skip(1));
    }
}

/// Builds a string from bytes, when they are UTF-8.
///
/// Wraps std's `String::from_utf8`, which succeeds exactly when the bytes
/// are valid UTF-8 and then holds those very bytes.
#[verifier::external_body]
pub(crate) fn string_from_utf8(bytes: Vec<u8>) -> (r: Option<String>)
    ensures
        r is Some <==> valid_utf8(bytes@),
        r matches Some(s) ==> encode_utf8(s@) == bytes@,
{
    String::from_utf8(bytes).ok()
}

/// Builds a string from bytes known to be valid UTF-8.
pub fn utf8_string(bytes: Vec<u8>) -> (s: String)
    requires
        valid_utf8(bytes@),
    ensures
        string_bytes(&s) == bytes@,
{
    match string_from_utf8(bytes) {
        Some(s) => s,
        None => String::new(),
    }
}

/// Appends one character to a string.
///
/// Wraps std's `String::push`, which adds the character at the end.
#[verifier::external_body]
pub(crate) fn string_push(s: &mut String, c: char)
    ensures
        final(s)@ == old(s)@.push(c),
{
    s.push(c)
}

/// Appends an ASCII byte to a string as the character it stands for.
pub fn push_ascii(s: &mut String, b: u8)
    requires
        b < 0x80,
    ensures
        string_bytes(final(s)) == string_bytes(old(s)).push(b),
{
    let c: char = b as char;
    string_push(s, c);
    proof {
        lemma_encode_push(old(s)@, c);
        assert(c as u32 == b as u32);
        assert(((b as u32) & 0x7f) as u8 == b) by (bit_vector)
            requires
                b < 0x80,
        ;
        assert(encode_scalar(c as u32) =~= seq![b]);
    }
}

pub proof fn lemma_encode_concat(a: Seq<char>, b: Seq<char>)
    ensures
        encode_utf8(a + b) == encode_utf8(a) + encode_utf8(b),
    decreases a.len(),
{
    if a.len() == 0 {
        assert(a + b =~= b);
    } else {
        lemma_encode_concat(a.drop_first(), b);
        assert((a + b).drop_first() =~= a.drop_first() + b);
    }
}

pub proof fn lemma_encode_push(a: Seq<char>, c: char)
    ensures
        encode_utf8(a.push(c)) == encode_utf8(a) + encode_scalar(c as u32),
{
    lemma_encode_concat(a, seq![c]);
    assert(a.push(c) =~= a + seq![c]);
    assert(seq![c].drop_first() =~= Seq::<char>::empty());
    reveal_with_fuel(encode_utf8, 2);
    assert(encode_utf8(seq![c]) =~= encode_scalar(c as u32));
}

/// Appends a string slice to a string.
pub fn push_str(s: &mut String, t: &str)
    ensures
        string_bytes(final(s)) == string_bytes(old(s)) + t.spec_bytes(),
{
    s.append(t);
    proof {
        lemma_encode_concat(old(s)@, t@);
    }
}

/// A string of ASCII bytes.
pub fn ascii_string(b: &[u8]) -> (s: String)
    requires
        forall|i: int| 0 <= i < b@.len() ==> #[trigger] b@[i] < 0x80,
    ensures
        string_bytes(&s) == b@,
{
    let mut s = String::new();
    let mut i: usize = 0;
    proof {
        assert(string_bytes(&s) =~= b@.take(0));
    }
    while i < b.len()
        invariant
            0 <= i <= b@.len(),
            forall|j: int| 0 <= j < b@.len() ==> #[trigger] b@[j] < 0x80,
            string_bytes(&s) == b@.take(i as int),
        decreases b@.len() - i,
    {
        push_ascii(&mut s, b[i]);
        proof {
            assert(b@.take(i as int).push(b@[i as int]) =~= b@.take(i + 1));
        }
        i += 1;
    }
    proof {
        assert(b@.take(b@.len() as int) =~= b@);
    }
    s
}

/// `prefix`, then `middle`, then `suffix`, as one string.
pub fn message(prefix: &str, middle: &str, suffix: &str) -> (s: String)
    ensures
        string_bytes(&s) == prefix.spec_bytes() + middle.spec_bytes() + suffix.spec_bytes(),
{
    let mut s = string_of(prefix);
    push_str(&mut s, middle);
    push_str(&mut s, suffix);
    s
}

/// `prefix` followed by `rest`, as one string.
pub fn prefixed(prefix: &str, rest: &str) -> (s: String)
    ensures
        string_bytes(&s) == prefix.spec_bytes() + rest.spec_bytes(),
{
    let mut s = string_of(prefix);
    push_str(&mut s, rest);
    s
}

/// Whether two byte slices hold the same bytes.
pub fn bytes_equal(a: &[u8], b: &[u8]) -> (r: bool)
    ensures
        r == (a@ == b@),
{
    if a.len() != b.len() {
        return false;
    }
    let mut i: usize = 0;
    while i < a.len()
        invariant
            a@.len() == b@.len(),
            0 <= i <= a@.len(),
            forall|j: int| 0 <= j < i ==> a@[j] == b@[j],
        decreases a@.len() - i,
    {
        if a[i] != b[i] {
            return false;
        }
        i += 1;
    }
    proof {
        assert(a@ =~= b@);
    }
    true
}

/// The bytes of an ASCII string are its characters.
pub proof fn lemma_ascii_str(s: &str)
    requires
        is_ascii_chars(s@),
    ensures
        s.spec_bytes().len() == s@.len(),
        forall|i: int| 0 <= i < s@.len() ==> #[trigger] s.spec_bytes()[i] == s@[i] as u8,
        forall|i: int| 0 <= i < s@.len() ==> #[trigger] s.spec_bytes()[i] < 0x80,
{
    is_ascii_chars_encode_utf8(s@);
    assert forall|i: int| 0 <= i < s@.len() implies #[trigger] s.spec_bytes()[i] < 0x80 by {
        assert('\0' <= s@[i] <= '\u{7f}');
    }
}

/// The decimal digits of `n`, most significant first.
pub open spec fn decimal_digits(n: nat) -> Seq<u8>
    decreases n,
{
    if n < 10 {
        seq![(48 + n) as u8]
    } else {
        decimal_digits(n / 10).push((48 + n % 10) as u8)
    }
}

fn digits_of(n: u64) -> (r: Vec<u8>)
    ensures
        r@ == decimal_digits(n as nat),
        forall|i: int| 0 <= i < r@.len() ==> #[trigger] r@[i] < 0x80,
    decreases n,
{
    if n < 10 {
        let r = vec![48u8 + n as u8];
        proof {
            assert(r@ =~= decimal_digits(n as nat));
        }
        r
    } else {
        let mut r = digits_of(n / 10);
        r.push(48u8 + (n % 10) as u8);
        r
    }
}

/// `n` written in decimal.
pub fn decimal_string(n: u64) -> (s: String)
    ensures
        string_bytes(&s) == decimal_digits(n as nat),
{
    let d = digits_of(n);
    ascii_string(d.as_slice())
}

/// Whether the bytes `t` spell the text `l`.
pub fn is_text(t: &[u8], l: &str) -> (r: bool)
    ensures
        r == (t@ == l.spec_bytes()),
{
    bytes_equal(t, l.as_bytes())
}

/// A new string holding `t`.
pub fn string_of(t: &str) -> (s: String)
    ensures
        string_bytes(&s) == t.spec_bytes(),
        s@ == t@,
{
    t.to_owned()
}

} // verus!
