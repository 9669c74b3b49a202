//! TTL values: plain seconds or BIND's units.

use vstd::prelude::*;
use vstd::string::*;
use crate::text::{is_digit, all_digits, decimal, lower, upper, to_lower, lower_seq, upper_seq};

verus! {

/// The largest TTL, 2^31 - 1.
pub const MAX_TTL: u64 = 2_147_483_647;

/// Seconds in one of BIND's units, in either case.
pub open spec fn unit_seconds(c: u8) -> Option<nat> {
    let l = lower(c);
    if l == 119u8 {
        Some(604_800)
    } else if l == 100u8 {
        Some(86_400)
    } else if l == 104u8 {
        Some(3_600)
    } else if l == 109u8 {
        Some(60)
    } else if l == 115u8 {
        Some(1)
    } else {
        None
    }
}

/// How many digits `s` starts with.
pub open spec fn digit_run(s: Seq<u8>) -> nat
    decreases s.len(),
{
    if s.len() > 0 && is_digit(s[0]) {
        1 + digit_run(s.skip(1))
    } else {
        0
    }
}

/// The seconds that a run of `<digits><unit>` groups adds up to, such as
/// `1h30m`, or `None` when `s` isn't made of such groups.
pub open spec fn unit_total(s: Seq<u8>) -> Option<nat>
    decreases s.len(),
{
    if s.len() == 0 {
        Some(0)
    } else {
        let k = digit_run(s);
        if k == 0 || k >= s.len() {
            None
        } else {
            match unit_seconds(s[k as int]) {
                None => None,
                Some(u) => match unit_total(s.skip(k as int + 1)) {
                    Some(t) => Some(decimal(s.take(k as int)) * u + t),
                    None => None,
                },
            }
        }
    }
}

/// The TTL `raw` spells: plain seconds (`86400`) or BIND units (`1h`,
/// `3W`, `1h30m`), at most 2^31 - 1.
pub open spec fn ttl_value(raw: Seq<u8>) -> Option<u32> {
    if raw.len() == 0 {
        None
    } else if all_digits(raw) {
        if decimal(raw) <= MAX_TTL {
            Some(decimal(raw) as u32)
        } else {
            None
        }
    } else {
        match unit_total(raw) {
            Some(t) => if t <= MAX_TTL {
                Some(t as u32)
            } else {
                None
            },
            None => None,
        }
    }
}

proof fn lemma_digit_run(s: Seq<u8>, k: int)
    requires
        0 <= k <= s.len(),
        forall|j: int| 0 <= j < k ==> is_digit(#[trigger] s[j]),
        k == s.len() || !is_digit(s[k]),
    ensures
        digit_run(s) == k,
    decreases k,
{
    if k > 0 {
        assert forall|j: int| 0 <= j < k - 1 implies is_digit(#[trigger] s.skip(1)[j]) by {
            assert(s.skip(1)[j] == s[j + 1]);
        }
        if k < s.len() {
            assert(s.skip(1)[k - 1] == s[k]);
        }
        lemma_digit_run(s.skip(1), k - 1);
    }
}

/// `decimal` grows by one digit at a time.
proof fn lemma_decimal_push(s: Seq<u8>, d: u8)
    ensures
        decimal(s.push(d)) == decimal(s) * 10 + (d - 0x30) as nat,
{
    assert(s.push(d).drop_last() =~= s);
}

/// The value of `s[from..to]`, capped at one past the largest TTL.
fn capped_decimal(s: &[u8], from: usize, to: usize) -> (r: u64)
    requires
        from <= to <= s@.len(),
        all_digits(s@.subrange(from as int, to as int)),
    ensures
        r == if decimal(s@.subrange(from as int, to as int)) <= MAX_TTL {
            decimal(s@.subrange(from as int, to as int))
        } else {
            MAX_TTL as nat + 1
        },
{
    let mut n: u64 = 0;
    let mut i = from;
    proof {
        assert(s@.subrange(from as int, from as int) =~= Seq::<u8>::empty());
    }
    while i < to
        invariant
            from <= i <= to <= s@.len(),
            all_digits(s@.subrange(from as int, to as int)),
            n == if decimal(s@.subrange(from as int, i as int)) <= MAX_TTL {
                decimal(s@.subrange(from as int, i as int))
            } else {
                MAX_TTL as nat + 1
            },
        decreases to - i,
    {
        let d = s[i];
        proof {
            assert(s@.subrange(from as int, to as int)[i - from] == d);
            assert(s@.subrange(from as int, i + 1) =~= s@.subrange(from as int, i as int).push(d));
            lemma_decimal_push(s@.subrange(from as int, i as int), d);
        }
        if n <= MAX_TTL {
            let m = n * 10 + (d - 48) as u64;
            n = if m <= MAX_TTL {
                m
            } else {
                MAX_TTL + 1
            };
        }
        i += 1;
    }
    n
}

/// Parses a TTL as plain seconds (`86400`) or BIND units (`1h`, `3W`,
/// `1h30m`). Returns `None` for anything else, including values over 2^31 - 1.
pub fn parse_ttl(raw: &str) -> (r: Option<u32>)
    ensures
        r == ttl_value(raw.spec_bytes()),
{
    let s = raw.as_bytes();
    let len = s.len();
    if len == 0 {
        return None;
    }
    // Where the first non-digit is, if any.
    let mut i: usize = 0;
    while i < len && s[i] >= 48u8 && s[i] <= 57u8
        invariant
            0 <= i <= len == s@.len(),
            forall|j: int| 0 <= j < i ==> is_digit(#[trigger] s@[j]),
        decreases len - i,
    {
        i += 1;
    }
    if i == len {
        proof {
            assert(s@.subrange(0, len as int) =~= s@);
        }
        let n = capped_decimal(s, 0, len);
        if n <= MAX_TTL {
            return Some(n as u32);
        } else {
            return None;
        }
    }
    proof {
        assert(!all_digits(s@)) by {
            assert(!is_digit(s@[i as int]));
        }
    }

    // `total` is the sum of the groups before `start`, capped like
    // `capped_decimal`.
    let mut total: u64 = 0;
    let mut start: usize = 0;
    let mut j: usize = 0;
    let ghost mut acc: nat = 0;
    proof {
        assert(s@.skip(0) =~= s@);
    }
    loop
        invariant
            start <= j <= len == s@.len(),
            len > 0,
            s@ == raw.spec_bytes(),
            !all_digits(s@),
            forall|q: int| start <= q < j ==> is_digit(#[trigger] s@[q]),
            unit_total(s@) == (match unit_total(s@.skip(start as int)) {
                Some(t) => Some(acc + t),
                None => None,
            }),
            total == if acc <= MAX_TTL {
                acc
            } else {
                MAX_TTL as nat + 1
            },
        decreases len - j,
    {
        if j == len && start == len {
            proof {
                assert(s@.skip(start as int) =~= Seq::<u8>::empty());
            }
            if total <= MAX_TTL {
                return Some(total as u32);
            } else {
                return None;
            }
        }
        if j == len {
            // Digits with no unit after them.
            proof {
                let rest = s@.skip(start as int);
                if rest.len() > 0 {
                    assert forall|q: int| 0 <= q < rest.len() implies is_digit(#[trigger] rest[q]) by {
                        assert(rest[q] == s@[start + q]);
                    }
                    lemma_digit_run(rest, rest.len() as int);
                }
            }
            return None;
        }
        let c = s[j];
        if c >= 48u8 && c <= 57u8 {
            j += 1;
        } else {
            let ghost rest = s@.skip(start as int);
            proof {
                assert forall|q: int| 0 <= q < j - start implies is_digit(#[trigger] rest[q]) by {
                    assert(rest[q] == s@[start + q]);
                }
                assert(rest[j - start] == c);
                lemma_digit_run(rest, j - start);
                assert(rest.skip(j - start + 1) =~= s@.skip(j + 1));
                assert(rest.take(j - start) =~= s@.subrange(start as int, j as int));
            }
            let l = to_lower(c);
            let unit: u64 = if l == 119u8 {
                604_800
            } else if l == 100u8 {
                86_400
            } else if l == 104u8 {
                3_600
            } else if l == 109u8 {
                60
            } else if l == 115u8 {
                1
            } else {
                return None;
            };
            if j == start {
                return None;
            }
            proof {
                assert forall|q: int| 0 <= q < j - start implies is_digit(
                    #[trigger] s@.subrange(start as int, j as int)[q],
                ) by {
                    assert(s@.subrange(start as int, j as int)[q] == s@[start + q]);
                }
            }
            let n = capped_decimal(s, start, j);
            let ghost term = decimal(s@.subrange(start as int, j as int)) * unit_seconds(c)->0;
            proof {
                assert(unit_seconds(c) == Some(unit as nat));
                acc = acc + term;
            }
            if total <= MAX_TTL && n <= MAX_TTL {
                proof {
                    assert(n * unit <= 2_147_483_647 * 604_800) by (nonlinear_arith)
                        requires
                            n <= 2_147_483_647,
                            unit <= 604_800,
                    ;
                }
                let t = total + n * unit;
                total = if t <= MAX_TTL {
                    t
                } else {
                    MAX_TTL + 1
                };
            } else {
                proof {
                    if n > MAX_TTL {
                        assert(decimal(s@.subrange(start as int, j as int)) * unit >= decimal(
                            s@.subrange(start as int, j as int),
                        )) by (nonlinear_arith)
                            requires
                                unit >= 1,
                        ;
                    }
                }
                total = MAX_TTL + 1;
            }
            start = j + 1;
            j = j + 1;
        }
    }
}


/// `a` and `b` are the same text but for the case of ASCII letters.
pub open spec fn same_but_case(a: Seq<u8>, b: Seq<u8>) -> bool {
    a.len() == b.len() && forall|i: int| 0 <= i < a.len() ==> lower(#[trigger] a[i]) == lower(b[i])
}

proof fn lemma_same_but_case_skip(a: Seq<u8>, b: Seq<u8>, k: int)
    requires
        same_but_case(a, b),
        0 <= k <= a.len(),
    ensures
        same_but_case(a.skip(k), b.skip(k)),
{
    assert forall|i: int| 0 <= i < a.skip(k).len() implies lower(#[trigger] a.skip(k)[i]) == lower(b.skip(k)[i]) by {
        assert(a.skip(k)[i] == a[i + k]);
        assert(b.skip(k)[i] == b[i + k]);
    }
}

/// Digits are the same in either text, since case changes no digit.
proof fn lemma_same_digits(a: Seq<u8>, b: Seq<u8>)
    requires
        same_but_case(a, b),
    ensures
        all_digits(a) == all_digits(b),
        all_digits(a) ==> a == b,
        digit_run(a) == digit_run(b),
        digit_run(a) <= a.len(),
        a.take(digit_run(a) as int) == b.take(digit_run(a) as int),
    decreases a.len(),
{
    assert forall|i: int| 0 <= i < a.len() implies (is_digit(#[trigger] a[i]) == is_digit(b[i])) && (
    is_digit(a[i]) ==> a[i] == b[i]) by {
        assert(lower(a[i]) == lower(b[i]));
    }
    if all_digits(a) {
        assert(a =~= b);
    }
    if all_digits(b) {
        assert forall|i: int| 0 <= i < a.len() implies is_digit(#[trigger] a[i]) by {
            assert(is_digit(b[i]));
        }
    }
    if a.len() > 0 {
        lemma_same_but_case_skip(a, b, 1);
        lemma_same_digits(a.skip(1), b.skip(1));
        if is_digit(a[0]) {
            let k = digit_run(a) as int;
            assert(a.take(k) =~= seq![a[0]] + a.skip(1).take(k - 1));
            assert(b.take(k) =~= seq![b[0]] + b.skip(1).take(k - 1));
        } else {
            assert(a.take(0) =~= b.take(0));
        }
    } else {
        assert(a.take(0) =~= b.take(0));
    }
}

proof fn lemma_unit_total_case(a: Seq<u8>, b: Seq<u8>)
    requires
        same_but_case(a, b),
    ensures
        unit_total(a) == unit_total(b),
    decreases a.len(),
{
    if a.len() > 0 {
        lemma_same_digits(a, b);
        let k = digit_run(a);
        if k > 0 && k < a.len() {
            assert(lower(a[k as int]) == lower(b[k as int]));
            assert(unit_seconds(a[k as int]) == unit_seconds(b[k as int]));
            lemma_same_but_case_skip(a, b, k as int + 1);
            lemma_unit_total_case(a.skip(k as int + 1), b.skip(k as int + 1));
        }
    }
}

/// Two texts that differ only in the case of their letters spell the same
/// TTL: BIND's units can be written in either case.
pub proof fn lemma_ttl_ignores_case(a: Seq<u8>, b: Seq<u8>)
    requires
        same_but_case(a, b),
    ensures
        ttl_value(a) == ttl_value(b),
{
    lemma_same_digits(a, b);
    lemma_unit_total_case(a, b);
}

/// Upper- or lowercasing a TTL's text keeps its value.
pub proof fn lemma_ttl_case_free(t: Seq<u8>)
    ensures
        ttl_value(upper_seq(t)) == ttl_value(t),
        ttl_value(lower_seq(t)) == ttl_value(t),
{
    assert(same_but_case(upper_seq(t), t)) by {
        assert forall|i: int| 0 <= i < t.len() implies lower(#[trigger] upper_seq(t)[i]) == lower(t[i]) by {
            assert(upper_seq(t)[i] == upper(t[i]));
        }
    }
    assert(same_but_case(lower_seq(t), t)) by {
        assert forall|i: int| 0 <= i < t.len() implies lower(#[trigger] lower_seq(t)[i]) == lower(t[i]) by {
            assert(lower_seq(t)[i] == lower(t[i]));
        }
    }
    lemma_ttl_ignores_case(upper_seq(t), t);
    lemma_ttl_ignores_case(lower_seq(t), t);
}

/// A run of digits and one unit letter, in either case, is worth the
/// number times the unit's seconds (a week, a day, an hour, a minute or a
/// second), as long as that is at most 2^31 - 1.
pub proof fn lemma_one_unit(digits: Seq<u8>, c: u8)
    requires
        digits.len() > 0,
        all_digits(digits),
        c == 119u8 || c == 87u8 || c == 100u8 || c == 68u8 || c == 104u8 || c == 72u8 || c == 109u8
            || c == 77u8 || c == 115u8 || c == 83u8,
    ensures
        ({
            let secs: nat = if c == 119u8 || c == 87u8 {
                604_800
            } else if c == 100u8 || c == 68u8 {
                86_400
            } else if c == 104u8 || c == 72u8 {
                3_600
            } else if c == 109u8 || c == 77u8 {
                60
            } else {
                1
            };
            ttl_value(digits.push(c)) == if decimal(digits) * secs <= MAX_TTL {
                Some((decimal(digits) * secs) as u32)
            } else {
                None::<u32>
            }
        }),
{
    let t = digits.push(c);
    lemma_digit_run(t, digits.len() as int);
    assert(t.take(digits.len() as int) =~= digits);
    assert(t.skip(digits.len() as int + 1) =~= Seq::<u8>::empty());
    assert(!all_digits(t)) by {
        assert(!is_digit(t[digits.len() as int]));
    }
    let k = digits.len() as int;
    assert(t[k] == c);
    assert(unit_total(t.skip(k + 1)) == Some(0nat));
    let u = unit_seconds(c)->0;
    assert(unit_total(t) == Some(decimal(digits) * u + 0));
}


/// Groups of BIND units add up: a digit run and a unit in front of more
/// groups (`1h` before `30m`) add their seconds to those of the rest.
pub proof fn lemma_groups_add_up(digits: Seq<u8>, c: u8, rest: Seq<u8>)
    requires
        digits.len() > 0,
        all_digits(digits),
        unit_seconds(c) is Some,
    ensures
        unit_total(digits.push(c) + rest) == match unit_total(rest) {
            Some(t) => Some(unit_total(digits.push(c))->0 + t),
            None => None::<nat>,
        },
        unit_total(digits.push(c)) == Some(decimal(digits) * unit_seconds(c)->0),
{
    let g = digits.push(c);
    let t = g + rest;
    let k = digits.len() as int;
    assert(!is_digit(c));
    lemma_digit_run(t, k);
    lemma_digit_run(g, k);
    assert(t.take(k) =~= digits);
    assert(g.take(k) =~= digits);
    assert(t.skip(k + 1) =~= rest);
    assert(g.skip(k + 1) =~= Seq::<u8>::empty());
    assert(t[k] == c);
    assert(g[k] == c);
    assert(unit_total(Seq::<u8>::empty()) == Some(0nat));
}

} // verus!
