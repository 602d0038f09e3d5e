//! Resolving a ticket reference that is a full UUID or a hexadecimal prefix
//! of one (at least eight digits) against the known ticket ids.
use vstd::prelude::*;
use crate::text::{chars_of, is_prefix};
use crate::catalog::{trim_spec, trim_bounds, ascii_lower, ascii_lower_exec};
use crate::human::{uuid_of, parse_uuid, hex_digits, push_hex};

verus! {

/// An ASCII hexadecimal digit, in either case.
pub open spec fn is_hex_digit(c: char) -> bool {
    ('0' <= c && c <= '9') || ('a' <= c && c <= 'f') || ('A' <= c && c <= 'F')
}

/// The 32 lower-case hexadecimal digits of an id (the UUID's simple form).
pub open spec fn simple_hex(id: u128) -> Seq<char> {
    hex_digits(id as nat, 32)
}

/// The ids whose simple form starts with `p`, in order.
pub open spec fn prefix_matches(ids: Seq<u128>, p: Seq<char>) -> Seq<u128>
    decreases ids.len(),
{
    if ids.len() == 0 {
        Seq::empty()
    } else {
        let rest = prefix_matches(ids.drop_last(), p);
        if is_prefix(p, simple_hex(ids.last())) {
            rest.push(ids.last())
        } else {
            rest
        }
    }
}

/// Whether trimmed text can be a prefix: eight or more hexadecimal digits.
pub open spec fn prefix_shaped(t: Seq<char>) -> bool {
    t.len() >= 8 && forall|i: int| 0 <= i < t.len() ==> is_hex_digit(#[trigger] t[i])
}

/// Why a reference did not resolve.
pub enum PrefixError {
    /// No ticket id starts with the (trimmed) prefix.
    NotFound(String),
    /// Several ticket ids start with the prefix: the prefix and how many.
    Ambiguous(String, usize),
    /// Neither a UUID nor a hexadecimal prefix of eight or more digits.
    Invalid,
}

/// A full UUID names its ticket directly. Otherwise the reference, trimmed
/// of white space, must be eight or more hexadecimal digits; it names the
/// one ticket whose id starts with them (compared in lower case), and is
/// refused when none or several do.
pub fn resolve_uuid_prefix(s: &str, ticket_ids: &[u128]) -> (r: Result<u128, PrefixError>)
    ensures
        uuid_of(s@) matches Some(id) ==> r == Ok::<u128, PrefixError>(id),
        uuid_of(s@) is None ==> {
            let t = trim_spec(s@);
            let m = prefix_matches(ticket_ids@, t.map_values(|c: char| ascii_lower(c)));
            &&& !prefix_shaped(t) ==> r is Err && r->Err_0 is Invalid
            &&& prefix_shaped(t) && m.len() == 1 ==> r == Ok::<u128, PrefixError>(m[0])
            &&& prefix_shaped(t) && m.len() == 0 ==> (r matches Err(PrefixError::NotFound(p)) && p@ == t)
            &&& prefix_shaped(t) && m.len() > 1 ==> (r matches Err(PrefixError::Ambiguous(p, n)) && p@ == t && n == m.len())
        },
{
    match parse_uuid(s) {
        Some(id) => {
            return Ok(id);
        },
        None => {},
    }
    let v = chars_of(s);
    let (a, b) = trim_bounds(&v, 0, v.len());
    proof {
        assert(v@.subrange(0, v@.len() as int) =~= v@);
    }
    let ghost t = v@.subrange(a as int, b as int);
    if b - a < 8 {
        return Err(PrefixError::Invalid);
    }
    let mut lower: Vec<char> = Vec::new();
    let mut trimmed = String::new();
    let mut k: usize = a;
    while k < b
        invariant
            a <= k <= b <= v@.len(),
            b - a >= 8,
            uuid_of(s@) is None,
            v@ == s@,
            t == v@.subrange(a as int, b as int),
            t == trim_spec(s@),
            lower@ == t.subrange(0, k - a).map_values(|c: char| ascii_lower(c)),
            trimmed@ == t.subrange(0, k - a),
            forall|i: int| 0 <= i < k - a ==> is_hex_digit(#[trigger] t[i]),
        decreases b - k,
    {
        let c = v[k];
        if !(('0' <= c && c <= '9') || ('a' <= c && c <= 'f') || ('A' <= c && c <= 'F')) {
            assert(t[k - a] == c);
            return Err(PrefixError::Invalid);
        }
        lower.push(ascii_lower_exec(c));
        crate::text::push_char(&mut trimmed, c);
        proof {
            assert(t.subrange(0, k + 1 - a) =~= t.subrange(0, k - a).push(c));
            assert(lower@ =~= t.subrange(0, k + 1 - a).map_values(|c: char| ascii_lower(c)));
        }
        k = k + 1;
    }
    assert(t.subrange(0, b - a) =~= t);
    let ghost p = lower@;
    let mut found: Vec<u128> = Vec::new();
    let mut i: usize = 0;
    while i < ticket_ids.len()
        invariant
            i <= ticket_ids@.len(),
            p == lower@,
            found@ == prefix_matches(ticket_ids@.subrange(0, i as int), p),
        decreases ticket_ids@.len() - i,
    {
        proof {
            assert(ticket_ids@.subrange(0, i + 1).drop_last() =~= ticket_ids@.subrange(0, i as int));
            assert(ticket_ids@.subrange(0, i + 1).last() == ticket_ids@[i as int]);
        }
        let mut hex = String::new();
        push_hex(&mut hex, ticket_ids[i], 32);
        assert(hex@ =~= simple_hex(ticket_ids@[i as int]));
        if starts_with_chars(&hex, &lower) {
            found.push(ticket_ids[i]);
        }
        i = i + 1;
    }
    assert(ticket_ids@.subrange(0, ticket_ids@.len() as int) =~= ticket_ids@);
    if found.len() == 1 {
        Ok(found[0])
    } else if found.len() == 0 {
        Err(PrefixError::NotFound(trimmed))
    } else {
        Err(PrefixError::Ambiguous(trimmed, found.len()))
    }
}

/// Whether the characters of `s` start with `p`.
fn starts_with_chars(s: &String, p: &Vec<char>) -> (r: bool)
    ensures
        r == is_prefix(p@, s@),
{
    let v = chars_of(s.as_str());
    if p.len() > v.len() {
        return false;
    }
    let mut i: usize = 0;
    while i < p.len()
        invariant
            p@.len() <= v@.len(),
            v@ == s@,
            i <= p@.len(),
            forall|j: int| 0 <= j < i ==> p@[j] == v@[j],
        decreases p@.len() - i,
    {
        if p[i] != v[i] {
            return false;
        }
        i = i + 1;
    }
    assert(p@ =~= v@.subrange(0, p@.len() as int));
    true
}

} // verus!
