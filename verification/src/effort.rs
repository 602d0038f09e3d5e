//! Token-budget effort values written in ticket metadata.
use vstd::prelude::*;
use crate::text::{chars_of, decimal, digit_char, utf8_len, char_width, lemma_utf8_len_prefix, lemma_utf8_len_mono};
use crate::catalog::{ascii_lower, ascii_lower_exec, trim_spec, trim_start_spec, trim_end_spec, is_white, trim_bounds};

verus! {

pub open spec fn is_digit(c: char) -> bool {
    '0' <= c && c <= '9'
}

pub open spec fn digit_value(c: char) -> nat {
    (c as int - '0' as int) as nat
}

/// The text an effort is read from: lower-cased, with `,` and `_` removed.
pub open spec fn effort_text(v: Seq<char>) -> Seq<char>
    decreases v.len(),
{
    if v.len() == 0 {
        Seq::empty()
    } else {
        let rest = effort_text(v.drop_last());
        let c = v.last();
        if c == ',' || c == '_' { rest } else { rest.push(ascii_lower(c)) }
    }
}

/// Length of the run of ASCII digits starting at `i`.
pub open spec fn digit_run(s: Seq<char>, i: int) -> nat
    decreases s.len() - i,
{
    if 0 <= i < s.len() && is_digit(s[i]) { 1 + digit_run(s, i + 1) } else { 0 }
}

/// Value of a run of ASCII digits.
pub open spec fn digits_value(d: Seq<char>) -> nat
    decreases d.len(),
{
    if d.len() == 0 { 0 } else { digits_value(d.drop_last()) * 10 + digit_value(d.last()) }
}

pub open spec fn pow10(e: nat) -> nat
    decreases e,
{
    if e == 0 { 1 } else { 10 * pow10((e - 1) as nat) }
}

/// The value of the first `e` fraction digits, as if padded with zeros.
pub open spec fn fraction_prefix_value(frac: Seq<char>, e: nat) -> nat
    decreases e,
{
    if e == 0 {
        0
    } else {
        let d: nat = if (e - 1) < frac.len() { digit_value(frac[e - 1]) } else { 0 };
        fraction_prefix_value(frac, (e - 1) as nat) * 10 + d
    }
}

/// Index of the first ASCII digit.
pub open spec fn first_digit(s: Seq<char>) -> Option<int> {
    if exists|i: int| 0 <= i < s.len() && is_digit(s[i]) {
        Some(choose|i: int| 0 <= i < s.len() && is_digit(s[i]) && forall|j: int| 0 <= j < i ==> !is_digit(s[j]))
    } else {
        None
    }
}

/// Decimal exponent of a magnitude suffix: `k` thousands, `m` millions,
/// `b` billions.
pub open spec fn suffix_exponent(s: Seq<char>, at: int) -> nat {
    if 0 <= at < s.len() && s[at] == 'k' {
        3
    } else if 0 <= at < s.len() && s[at] == 'm' {
        6
    } else if 0 <= at < s.len() && s[at] == 'b' {
        9
    } else {
        0
    }
}

/// The value of the first number in lower-cased text without separators:
/// its digits, optionally one dot and more digits, scaled by a `k`/`m`/`b`
/// suffix right after it and rounded half up to a whole count, capped at the
/// largest `u64`; `None` when the text holds no digit.
pub open spec fn number_effort(s: Seq<char>) -> Option<u64> {
    match first_digit(s) {
        None => None,
        Some(p) => {
            let a = digit_run(s, p);
            let ip = s.subrange(p, p + a);
            let has_dot = p + a < s.len() && s[p + a] == '.';
            let b = if has_dot { digit_run(s, p + a + 1) } else { 0 };
            let frac = if has_dot { s.subrange(p + a + 1, p + a + 1 + b) } else { Seq::empty() };
            let end = if has_dot { p + a + 1 + b } else { p + a };
            let e = suffix_exponent(s, end);
            let round_up: nat = if e < frac.len() && digit_value(frac[e as int]) >= 5 { 1 } else { 0 };
            let exact = digits_value(ip) * pow10(e) + fraction_prefix_value(frac, e) + round_up;
            Some(if exact > u64::MAX { u64::MAX } else { exact as u64 })
        },
    }
}

/// Index just past the number that starts at `p`: its digits, then a dot
/// and the digits after it when there is a dot.
pub open spec fn number_end(s: Seq<char>, p: int) -> int {
    let a = digit_run(s, p);
    if p + a < s.len() && s[p + a] == '.' { p + a + 1 + digit_run(s, p + a + 1) } else { p + a }
}

/// Characters before the first ASCII digit (every character when there is
/// none) are ASCII.
pub open spec fn ascii_before_number(v: Seq<char>) -> bool {
    (exists|k: int| 0 <= k < v.len() && is_digit(v[k]))
        ==> forall|i: int| 0 <= i < v.len() && (forall|j: int| 0 <= j <= i ==> !is_digit(v[j])) ==> (v[i] as u32) < 128
}

/// The index of the character that starts `b` bytes into the UTF-8
/// encoding of `s` (`s.len()` for its end); `None` when byte `b` falls
/// inside a character or past the end.
pub open spec fn char_at_byte(s: Seq<char>, b: int) -> Option<int> {
    if exists|k: int| 0 <= k <= s.len() && utf8_len(#[trigger] s.subrange(0, k)) == b {
        Some(choose|k: int| 0 <= k <= s.len() && utf8_len(#[trigger] s.subrange(0, k)) == b)
    } else {
        None
    }
}

/// `nan`.
pub open spec fn is_nan_text(t: Seq<char>) -> bool {
    t.len() == 3 && t[0] == 'n' && t[1] == 'a' && t[2] == 'n'
}

/// `inf` or `infinity`.
pub open spec fn is_inf_text(t: Seq<char>) -> bool {
    ||| t.len() == 3 && t[0] == 'i' && t[1] == 'n' && t[2] == 'f'
    ||| t.len() == 8 && t[0] == 'i' && t[1] == 'n' && t[2] == 'f' && t[3] == 'i' && t[4] == 'n'
        && t[5] == 'i' && t[6] == 't' && t[7] == 'y'
}

/// Digits, or digits, a dot and digits, with at least one digit.
pub open spec fn is_decimal_text(t: Seq<char>) -> bool {
    let a = digit_run(t, 0);
    ||| a == t.len() && a > 0
    ||| a < t.len() && t[a as int] == '.' && a + 1 + digit_run(t, (a + 1) as int) == t.len() && t.len() > 1
}

/// The suffix letter of a decimal exponent (`k`, `m`, `b`), or nothing.
pub open spec fn suffix_chars(e: nat) -> Seq<char> {
    if e == 3 {
        seq!['k']
    } else if e == 6 {
        seq!['m']
    } else if e == 9 {
        seq!['b']
    } else {
        Seq::empty()
    }
}

/// The effort read from the text `t` as a floating-point literal (an
/// optional sign, then `inf`, `infinity`, `nan` or a decimal without an
/// exponent), scaled by `10^e`, rounded and saturated to a `u64`: infinity
/// gives the largest `u64`, NaN and every negative value give 0; `None` when
/// `t` is no such literal. (`t` never holds an exponent here: it is cut from
/// text whose letters all come before its first digit.)
pub open spec fn float_effort(t: Seq<char>, e: nat) -> Option<u64> {
    let signed = t.len() > 0 && (t[0] == '+' || t[0] == '-');
    let neg = t.len() > 0 && t[0] == '-';
    let body = if signed { t.drop_first() } else { t };
    if is_nan_text(body) {
        Some(0)
    } else if is_inf_text(body) {
        Some(if neg { 0 } else { u64::MAX })
    } else if is_decimal_text(body) {
        if neg { Some(0) } else { number_effort(seq!['0'] + body + suffix_chars(e)) }
    } else {
        None
    }
}

/// The effort read when characters before the number are not all ASCII:
/// the number's character positions are taken as byte offsets into the
/// UTF-8 text, and the bytes between them are read as a floating-point
/// literal, scaled by the suffix after the number.
pub open spec fn shifted_effort(c: Seq<char>) -> Option<u64> {
    match first_digit(c) {
        None => None,
        Some(p) => {
            let q = number_end(c, p);
            match (char_at_byte(c, p), char_at_byte(c, q)) {
                (Some(i), Some(j)) => float_effort(c.subrange(i, j), suffix_exponent(c, q)),
                _ => None,
            }
        },
    }
}

/// Whether both byte offsets of [`shifted_effort`] fall on character
/// boundaries.
pub open spec fn shifted_cut_ok(c: Seq<char>) -> bool {
    match first_digit(c) {
        None => true,
        Some(p) => char_at_byte(c, p) is Some && char_at_byte(c, number_end(c, p)) is Some,
    }
}

/// The text an effort is read from: `v` trimmed, lower-cased, without
/// `,` and `_`.
pub open spec fn compact_effort_text(v: Seq<char>) -> Seq<char> {
    effort_text(trim_spec(v))
}

/// The inputs on which reading an effort fails outright: a non-ASCII
/// character before the number puts a byte offset inside a character.
pub open spec fn effort_panics(v: Seq<char>) -> bool {
    let c = compact_effort_text(v);
    !ascii_before_number(c) && !shifted_cut_ok(c)
}

/// The effort written in `v`: in the compact text, the first number, scaled
/// by its suffix and rounded ([`number_effort`]); where a non-ASCII character
/// stands before the number, what [`shifted_effort`] reads.
pub open spec fn effort_spec(v: Seq<char>) -> Option<u64> {
    let c = compact_effort_text(v);
    if ascii_before_number(c) { number_effort(c) } else { shifted_effort(c) }
}

proof fn lemma_digit_run_step(s: Seq<char>, i: int)
    requires
        0 <= i < s.len(),
        is_digit(s[i]),
    ensures
        digit_run(s, i) == 1 + digit_run(s, i + 1),
{
}

proof fn lemma_digit_run_bound(s: Seq<char>, i: int)
    requires
        0 <= i <= s.len(),
    ensures
        i + digit_run(s, i) <= s.len(),
        forall|j: int| i <= j < i + digit_run(s, i) ==> is_digit(s[j]),
    decreases s.len() - i,
{
    if i < s.len() && is_digit(s[i]) {
        lemma_digit_run_bound(s, i + 1);
    }
}

proof fn lemma_fraction_prefix_bound(frac: Seq<char>, e: nat)
    requires
        forall|j: int| 0 <= j < frac.len() ==> is_digit(frac[j]),
    ensures
        fraction_prefix_value(frac, e) < pow10(e),
    decreases e,
{
    if e > 0 {
        lemma_fraction_prefix_bound(frac, (e - 1) as nat);
        if (e - 1) < frac.len() {
            assert(is_digit(frac[e - 1]));
        }
    }
}

/// The largest `u64` plus one, the cap for running values.
spec fn cap() -> nat {
    u64::MAX as nat + 1
}

spec fn min_cap(x: nat) -> nat {
    if x < cap() { x } else { cap() }
}

fn digit_of(c: char) -> (r: u128)
    requires
        is_digit(c),
    ensures
        r as nat == digit_value(c),
        r < 10,
{
    (c as u32 - '0' as u32) as u128
}

/// `effort_text(v[a..b])`: lower-cased, without `,` and `_`.
fn compact_range(v: &Vec<char>, a: usize, b: usize) -> (s: Vec<char>)
    requires
        a <= b <= v@.len(),
    ensures
        s@ == effort_text(v@.subrange(a as int, b as int)),
{
    let mut s: Vec<char> = Vec::new();
    let mut i: usize = a;
    assert(v@.subrange(a as int, a as int) =~= Seq::<char>::empty());
    while i < b
        invariant
            a <= i <= b <= v@.len(),
            s@ == effort_text(v@.subrange(a as int, i as int)),
        decreases b - i,
    {
        proof {
            assert(v@.subrange(a as int, i + 1).drop_last() =~= v@.subrange(a as int, i as int));
            assert(v@.subrange(a as int, i + 1).last() == v@[i as int]);
        }
        let c = v[i];
        if c != ',' && c != '_' {
            s.push(ascii_lower_exec(c));
        }
        i = i + 1;
    }
    s
}

/// The value of the first number in compact effort text (see
/// [`number_effort`]).
fn number_effort_exec(s: &Vec<char>) -> (r: Option<u64>)
    ensures
        r == number_effort(s@),
{
    let ghost sv = s@;
    // first digit
    let mut p: usize = 0;
    while p < s.len() && !('0' <= s[p] && s[p] <= '9')
        invariant
            p <= s@.len(),
            forall|j: int| 0 <= j < p ==> !is_digit(s@[j]),
        decreases s@.len() - p,
    {
        p = p + 1;
    }
    if p == s.len() {
        assert(!(exists|k: int| 0 <= k < sv.len() && is_digit(sv[k])));
        return None;
    }
    proof {
        assert(exists|k: int| 0 <= k < sv.len() && is_digit(sv[k]));
        let q = choose|q: int| 0 <= q < sv.len() && is_digit(sv[q]) && forall|j: int| 0 <= j < q ==> !is_digit(sv[j]);
        if q < p { assert(!is_digit(sv[q])); }
        if q > p { assert(!is_digit(sv[p as int])); }
        assert(first_digit(sv) == Some(p as int));
    }
    // integer digits, with the running value capped at 2^64
    let capv: u128 = 0x1_0000_0000_0000_0000;
    let mut k: usize = p;
    let mut ival: u128 = 0;
    proof { lemma_digit_run_bound(sv, p as int); }
    while k < s.len() && '0' <= s[k] && s[k] <= '9'
        invariant
            p <= k <= s@.len(),
            capv == cap(),
            digit_run(sv, p as int) == (k - p) + digit_run(sv, k as int),
            ival as nat == min_cap(digits_value(sv.subrange(p as int, k as int))),
            sv == s@,
        decreases s@.len() - k,
    {
        proof {
            lemma_digit_run_step(sv, k as int);
            assert(sv.subrange(p as int, k + 1).drop_last() =~= sv.subrange(p as int, k as int));
            assert(sv.subrange(p as int, k + 1).last() == sv[k as int]);
        }
        let d = digit_of(s[k]);
        let ghost old_dv = digits_value(sv.subrange(p as int, k as int));
        if ival >= capv {
            ival = capv;
        } else {
            let nv = ival * 10 + d;
            ival = if nv >= capv { capv } else { nv };
        }
        proof {
            assert(digits_value(sv.subrange(p as int, k + 1)) == old_dv * 10 + digit_value(sv[k as int]));
        }
        k = k + 1;
    }
    let a = k - p;
    proof {
        assert(digit_run(sv, k as int) == 0);
    }
    let has_dot = k < s.len() && s[k] == '.';
    let mut frac: Vec<char> = Vec::new();
    let mut end = k;
    if has_dot {
        end = k + 1;
        proof { lemma_digit_run_bound(sv, (k + 1) as int); }
        while end < s.len() && '0' <= s[end] && s[end] <= '9'
            invariant
                k + 1 <= end <= s@.len(),
                sv == s@,
                digit_run(sv, k + 1) == (end - (k + 1)) + digit_run(sv, end as int),
                frac@ == sv.subrange(k + 1, end as int),
            decreases s@.len() - end,
        {
            proof { lemma_digit_run_step(sv, end as int); }
            frac.push(s[end]);
            assert(frac@ =~= sv.subrange(k + 1, end + 1));
            end = end + 1;
        }
        proof { assert(digit_run(sv, end as int) == 0); }
    } else {
        assert(frac@ =~= Seq::<char>::empty());
    }
    let e: usize = if end < s.len() && s[end] == 'k' {
        3
    } else if end < s.len() && s[end] == 'm' {
        6
    } else if end < s.len() && s[end] == 'b' {
        9
    } else {
        0
    };
    proof {
        assert(frac@ == (if has_dot { sv.subrange((p + a + 1) as int, (p + a + 1 + digit_run(sv, (p + a + 1) as int)) as int) } else { Seq::empty() }));
        assert forall|j: int| 0 <= j < frac@.len() implies is_digit(frac@[j]) by {
            lemma_digit_run_bound(sv, (k + 1) as int);
        }
    }
    // scale the integer part and add the leading fraction digits
    let mut scale: u128 = 1;
    let mut fpart: u128 = 0;
    let mut t: usize = 0;
    while t < e
        invariant
            t <= e <= 9,
            scale as nat == pow10(t as nat),
            fpart as nat == fraction_prefix_value(frac@, t as nat),
            forall|j: int| 0 <= j < frac@.len() ==> is_digit(frac@[j]),
        decreases e - t,
    {
        proof {
            lemma_fraction_prefix_bound(frac@, t as nat);
            lemma_pow10_small(t as nat);
        }
        let d: u128 = if t < frac.len() { digit_of(frac[t]) } else { 0 };
        fpart = fpart * 10 + d;
        scale = scale * 10;
        t = t + 1;
    }
    let round_up: u128 = if e < frac.len() && digit_of(frac[e]) >= 5 { 1 } else { 0 };
    proof {
        lemma_fraction_prefix_bound(frac@, e as nat);
        lemma_pow10_small(e as nat);
        assert(sv.subrange(p as int, k as int) == sv.subrange(p as int, (p + a) as int));
    }
    assert(ival * scale <= 0x1_0000_0000_0000_0000u128 * 1000000000u128) by (nonlinear_arith)
        requires ival <= 0x1_0000_0000_0000_0000u128, scale <= 1000000000u128;
    let total = ival * scale + fpart + round_up;
    proof {
        let dv = digits_value(sv.subrange(p as int, k as int));
        let exact = dv * pow10(e as nat) + fraction_prefix_value(frac@, e as nat) + round_up;
        if dv >= cap() {
            assert(ival as nat == cap());
            assert(dv * pow10(e as nat) >= cap() * pow10(e as nat)) by (nonlinear_arith)
                requires dv >= cap(), pow10(e as nat) >= 1;
            assert(cap() * pow10(e as nat) >= cap()) by (nonlinear_arith)
                requires pow10(e as nat) >= 1;
        } else {
            assert(ival as nat == dv);
        }
    }
    if total > u64::MAX as u128 {
        Some(u64::MAX)
    } else {
        Some(total as u64)
    }
}

/// The first number of compact effort text: the index of its first digit
/// and the index just past it.
fn first_number_bounds(c: &Vec<char>) -> (r: Option<(usize, usize)>)
    ensures
        r is None <==> first_digit(c@) is None,
        r matches Some(pq) ==> first_digit(c@) == Some(pq.0 as int) && pq.1 as int == number_end(c@, pq.0 as int)
            && pq.0 < pq.1 <= c@.len(),
{
    let mut p: usize = 0;
    while p < c.len() && !('0' <= c[p] && c[p] <= '9')
        invariant
            p <= c@.len(),
            forall|j: int| 0 <= j < p ==> !is_digit(c@[j]),
        decreases c@.len() - p,
    {
        p = p + 1;
    }
    if p == c.len() {
        assert(!(exists|k: int| 0 <= k < c@.len() && is_digit(c@[k])));
        return None;
    }
    proof {
        assert(exists|k: int| 0 <= k < c@.len() && is_digit(c@[k]));
        let q = choose|q: int| 0 <= q < c@.len() && is_digit(c@[q]) && forall|j: int| 0 <= j < q ==> !is_digit(c@[j]);
        if q < p { assert(!is_digit(c@[q])); }
        if q > p { assert(!is_digit(c@[p as int])); }
        assert(first_digit(c@) == Some(p as int));
        lemma_digit_run_bound(c@, p as int);
    }
    let mut k: usize = p;
    while k < c.len() && '0' <= c[k] && c[k] <= '9'
        invariant
            p <= k <= c@.len(),
            digit_run(c@, p as int) == (k - p) + digit_run(c@, k as int),
        decreases c@.len() - k,
    {
        proof { lemma_digit_run_step(c@, k as int); }
        k = k + 1;
    }
    assert(digit_run(c@, k as int) == 0);
    let mut end: usize = k;
    if k < c.len() && c[k] == '.' {
        end = k + 1;
        while end < c.len() && '0' <= c[end] && c[end] <= '9'
            invariant
                k + 1 <= end <= c@.len(),
                digit_run(c@, k + 1) == (end - (k + 1)) + digit_run(c@, end as int),
            decreases c@.len() - end,
        {
            proof { lemma_digit_run_step(c@, end as int); }
            end = end + 1;
        }
        assert(digit_run(c@, end as int) == 0);
    }
    Some((p, end))
}

/// The index of the character that starts `b` bytes into the UTF-8
/// encoding of `s` (see [`char_at_byte`]).
fn char_index_at_byte(s: &Vec<char>, b: usize) -> (r: Option<usize>)
    ensures
        r is None ==> char_at_byte(s@, b as int) is None,
        r matches Some(k) ==> k <= s@.len() && char_at_byte(s@, b as int) == Some(k as int)
            && utf8_len(s@.subrange(0, k as int)) == b,
{
    let mut k: usize = 0;
    let mut used: usize = 0;
    while k < s.len() && used < b
        invariant
            k <= s@.len(),
            used == utf8_len(s@.subrange(0, k as int)),
            used <= b,
        decreases s@.len() - k,
    {
        proof { lemma_utf8_len_prefix(s@, k as int); }
        let w = char_width(s[k]);
        if w > b - used {
            proof {
                assert forall|j: int| 0 <= j <= s@.len() implies utf8_len(#[trigger] s@.subrange(0, j)) != b by {
                    if j <= k {
                        lemma_utf8_len_mono(s@, j, k as int);
                    } else {
                        lemma_utf8_len_mono(s@, k + 1, j);
                    }
                }
            }
            return None;
        }
        used = used + w;
        k = k + 1;
    }
    if used == b {
        proof {
            assert forall|j: int| 0 <= j <= s@.len() && utf8_len(#[trigger] s@.subrange(0, j)) == b implies j == k by {
                if j < k {
                    lemma_utf8_len_mono(s@, j, k as int);
                }
                if j > k {
                    lemma_utf8_len_mono(s@, k as int, j);
                }
            }
            assert(utf8_len(s@.subrange(0, k as int)) == b);
        }
        Some(k)
    } else {
        proof {
            assert forall|j: int| 0 <= j <= s@.len() implies utf8_len(#[trigger] s@.subrange(0, j)) != b by {
                lemma_utf8_len_mono(s@, j, k as int);
            }
        }
        None
    }
}

/// Whether every character before the first ASCII digit is ASCII (see
/// [`ascii_before_number`]).
fn ascii_before_number_exec(c: &Vec<char>) -> (r: bool)
    ensures
        r == ascii_before_number(c@),
{
    let mut i: usize = 0;
    while i < c.len() && !('0' <= c[i] && c[i] <= '9')
        invariant
            i <= c@.len(),
            forall|j: int| 0 <= j < i ==> !is_digit(c@[j]) && (c@[j] as u32) < 128,
        decreases c@.len() - i,
    {
        if (c[i] as u32) >= 128 {
            let mut k: usize = i + 1;
            while k < c.len() && !('0' <= c[k] && c[k] <= '9')
                invariant
                    i < k <= c@.len(),
                    forall|j: int| 0 <= j < k ==> !is_digit(c@[j]),
                decreases c@.len() - k,
            {
                k = k + 1;
            }
            proof {
                if k < c@.len() {
                    assert(is_digit(c@[k as int]));
                    assert(forall|j: int| 0 <= j <= i ==> !is_digit(c@[j]));
                    assert(!((c@[i as int] as u32) < 128));
                } else {
                    assert(!(exists|m: int| 0 <= m < c@.len() && is_digit(c@[m])));
                }
            }
            return k == c.len();
        }
        i = i + 1;
    }
    proof {
        assert forall|m: int| 0 <= m < c@.len() && (forall|j: int| 0 <= j <= m ==> !is_digit(c@[j]))
            implies (c@[m] as u32) < 128 by {
            if m >= i {
                assert(!is_digit(c@[i as int]));
            }
        }
    }
    true
}

/// The effort read from `t` as a floating-point literal (see
/// [`float_effort`]).
fn float_effort_exec(t: &Vec<char>, e: usize) -> (r: Option<u64>)
    ensures
        r == float_effort(t@, e as nat),
{
    let signed = t.len() > 0 && (t[0] == '+' || t[0] == '-');
    let neg = t.len() > 0 && t[0] == '-';
    let st: usize = if signed { 1 } else { 0 };
    let mut body: Vec<char> = Vec::new();
    let mut i: usize = st;
    while i < t.len()
        invariant
            st <= i <= t@.len(),
            st <= 1,
            signed ==> st == 1,
            body@ == t@.subrange(st as int, i as int),
        decreases t@.len() - i,
    {
        body.push(t[i]);
        i = i + 1;
        assert(body@ =~= t@.subrange(st as int, i as int));
    }
    let ghost bv = if signed { t@.drop_first() } else { t@ };
    assert(body@ =~= bv);
    let n = body.len();
    if n == 3 && body[0] == 'n' && body[1] == 'a' && body[2] == 'n' {
        return Some(0);
    }
    if (n == 3 && body[0] == 'i' && body[1] == 'n' && body[2] == 'f') || (n == 8 && body[0] == 'i'
        && body[1] == 'n' && body[2] == 'f' && body[3] == 'i' && body[4] == 'n' && body[5] == 'i'
        && body[6] == 't' && body[7] == 'y') {
        return Some(if neg { 0 } else { u64::MAX });
    }
    let mut a: usize = 0;
    proof { lemma_digit_run_bound(bv, 0); }
    while a < n && '0' <= body[a] && body[a] <= '9'
        invariant
            a <= n == bv.len(),
            body@ == bv,
            digit_run(bv, 0) == a + digit_run(bv, a as int),
        decreases n - a,
    {
        proof { lemma_digit_run_step(bv, a as int); }
        a = a + 1;
    }
    assert(digit_run(bv, a as int) == 0);
    let dec = if a == n {
        a > 0
    } else if body[a] == '.' {
        let mut b: usize = a + 1;
        while b < n && '0' <= body[b] && body[b] <= '9'
            invariant
                a + 1 <= b <= n == bv.len(),
                body@ == bv,
                digit_run(bv, a + 1) == (b - (a + 1)) + digit_run(bv, b as int),
            decreases n - b,
        {
            proof { lemma_digit_run_step(bv, b as int); }
            b = b + 1;
        }
        assert(digit_run(bv, b as int) == 0);
        b == n && n > 1
    } else {
        false
    };
    assert(dec == is_decimal_text(bv));
    if !dec {
        return None;
    }
    if neg {
        return Some(0);
    }
    let mut w: Vec<char> = Vec::new();
    w.push('0');
    let mut j: usize = 0;
    while j < n
        invariant
            j <= n == bv.len(),
            body@ == bv,
            w@ == seq!['0'] + bv.subrange(0, j as int),
        decreases n - j,
    {
        w.push(body[j]);
        j = j + 1;
        assert(w@ =~= seq!['0'] + bv.subrange(0, j as int));
    }
    assert(bv.subrange(0, n as int) =~= bv);
    if e == 3 {
        w.push('k');
    } else if e == 6 {
        w.push('m');
    } else if e == 9 {
        w.push('b');
    }
    assert(w@ =~= seq!['0'] + bv + suffix_chars(e as nat));
    number_effort_exec(&w)
}

/// `c[i..j]`.
fn sub_chars(c: &Vec<char>, i: usize, j: usize) -> (t: Vec<char>)
    requires
        i <= j <= c@.len(),
    ensures
        t@ == c@.subrange(i as int, j as int),
{
    let mut t: Vec<char> = Vec::new();
    let mut k: usize = i;
    while k < j
        invariant
            i <= k <= j <= c@.len(),
            t@ == c@.subrange(i as int, k as int),
        decreases j - k,
    {
        t.push(c[k]);
        k = k + 1;
        assert(t@ =~= c@.subrange(i as int, k as int));
    }
    t
}

/// The decimal exponent of the suffix at `at` (see [`suffix_exponent`]).
fn suffix_exponent_exec(c: &Vec<char>, at: usize) -> (e: usize)
    ensures
        e as nat == suffix_exponent(c@, at as int),
{
    if at < c.len() && c[at] == 'k' {
        3
    } else if at < c.len() && c[at] == 'm' {
        6
    } else if at < c.len() && c[at] == 'b' {
        9
    } else {
        0
    }
}

/// The effort read where characters before the number are not all ASCII
/// (see [`shifted_effort`]).
fn shifted_effort_exec(c: &Vec<char>) -> (r: Option<u64>)
    ensures
        r == shifted_effort(c@),
{
    match first_number_bounds(c) {
        None => None,
        Some((p, q)) => {
            let oi = char_index_at_byte(c, p);
            let oj = char_index_at_byte(c, q);
            match (oi, oj) {
                (Some(i), Some(j)) => {
                    if j < i {
                        proof { lemma_utf8_len_mono(c@, j as int, i as int); }
                        assert(false);
                    }
                    let t = sub_chars(c, i, j);
                    let e = suffix_exponent_exec(c, q);
                    float_effort_exec(&t, e)
                },
                _ => None,
            }
        },
    }
}

/// The compact text an effort is read from (see [`compact_effort_text`]).
fn compact_of(value: &str) -> (c: Vec<char>)
    ensures
        c@ == compact_effort_text(value@),
{
    let v = chars_of(value);
    let (a, b) = trim_bounds(&v, 0, v.len());
    assert(v@.subrange(0, v@.len() as int) =~= v@);
    compact_range(&v, a, b)
}

/// Parse a token-budget effort such as `1500`, `2.5k tokens` or
/// `budget: 1_250` (see [`effort_spec`]).
pub fn parse_effort(value: &str) -> (r: Option<u64>)
    requires
        !effort_panics(value@),
    ensures
        r == effort_spec(value@),
{
    let c = compact_of(value);
    if ascii_before_number_exec(&c) {
        number_effort_exec(&c)
    } else {
        shifted_effort_exec(&c)
    }
}

/// Whether reading an effort from `value` fails outright (see
/// [`effort_panics`]): callers test this before [`parse_effort`].
pub fn effort_panics_on(value: &str) -> (r: bool)
    ensures
        r == effort_panics(value@),
{
    let c = compact_of(value);
    if ascii_before_number_exec(&c) {
        return false;
    }
    match first_number_bounds(&c) {
        None => false,
        Some((p, q)) => {
            let oi = char_index_at_byte(&c, p);
            let oj = char_index_at_byte(&c, q);
            match (oi, oj) {
                (Some(_), Some(_)) => false,
                _ => true,
            }
        },
    }
}

proof fn lemma_pow10_small(e: nat)
    requires
        e <= 9,
    ensures
        pow10(e) <= 1000000000,
        pow10(e) >= 1,
        pow10(e + 1) == 10 * pow10(e),
{
    reveal_with_fuel(pow10, 11);
    if e == 0 { } else if e == 1 { } else if e == 2 { } else if e == 3 { } else if e == 4 { }
    else if e == 5 { } else if e == 6 { } else if e == 7 { } else if e == 8 { } else { assert(e == 9); }
}


proof fn lemma_digit_char(d: nat)
    requires
        d < 10,
    ensures
        is_digit(digit_char(d)),
        digit_value(digit_char(d)) == d,
        digit_char(d) != ',' && digit_char(d) != '_' && digit_char(d) != '.',
        ascii_lower(digit_char(d)) == digit_char(d),
{
}

proof fn lemma_decimal_digits(n: nat)
    ensures
        forall|i: int| 0 <= i < decimal(n).len() ==> is_digit(#[trigger] decimal(n)[i]),
        effort_text(decimal(n)) == decimal(n),
        digits_value(decimal(n)) == n,
        decimal(n).len() > 0,
    decreases n,
{
    if n < 10 {
        lemma_digit_char(n);
        assert(decimal(n) =~= seq![digit_char(n)]);
        assert(decimal(n).drop_last() =~= Seq::<char>::empty());
        assert(effort_text(Seq::<char>::empty()) == Seq::<char>::empty());
        assert(digits_value(Seq::<char>::empty()) == 0);
        assert(effort_text(decimal(n)) =~= decimal(n));
        assert(digits_value(decimal(n)) == n);
    } else {
        lemma_decimal_digits(n / 10);
        lemma_digit_char(n % 10);
        let p = decimal(n / 10);
        assert(decimal(n) == p.push(digit_char(n % 10)));
        assert(decimal(n).drop_last() =~= p);
        assert(effort_text(decimal(n)) =~= decimal(n));
        assert forall|i: int| 0 <= i < decimal(n).len() implies is_digit(#[trigger] decimal(n)[i]) by {
            if i < p.len() {
                assert(decimal(n)[i] == p[i]);
            }
        }
        assert(digits_value(decimal(n)) == digits_value(p) * 10 + digit_value(digit_char(n % 10)));
        assert(n == (n / 10) * 10 + n % 10);
    }
}

proof fn lemma_digit_run_all(s: Seq<char>, i: int)
    requires
        0 <= i <= s.len(),
        forall|k: int| 0 <= k < s.len() ==> is_digit(#[trigger] s[k]),
    ensures
        digit_run(s, i) == s.len() - i,
    decreases s.len() - i,
{
    if i < s.len() {
        lemma_digit_run_all(s, i + 1);
    }
}

/// An effort written as a plain decimal number reads back as that number.
pub proof fn lemma_effort_of_decimal(n: nat)
    requires
        n <= u64::MAX,
    ensures
        effort_spec(decimal(n)) == Some(n as u64),
{
    let d = decimal(n);
    lemma_decimal_digits(n);
    assert(is_digit(d[0]) && is_digit(d.last()));
    assert(trim_start_spec(d) == d);
    assert(trim_end_spec(d) == d);
    assert(compact_effort_text(d) == d);
    let s = d;
    assert(is_digit(s[0]));
    assert(exists|i: int| 0 <= i < s.len() && is_digit(s[i]));
    let p = choose|i: int| 0 <= i < s.len() && is_digit(s[i]) && forall|j: int| 0 <= j < i ==> !is_digit(s[j]);
    assert(0 <= 0 < s.len() && is_digit(s[0]) && forall|j: int| 0 <= j < 0 ==> !is_digit(s[j]));
    if p > 0 {
        assert(!is_digit(s[0]));
    }
    assert(first_digit(s) == Some(0int));
    assert(ascii_before_number(s)) by {
        assert forall|i: int| 0 <= i < s.len() && (forall|j: int| 0 <= j <= i ==> !is_digit(s[j]))
            implies (s[i] as u32) < 128 by {
            assert(!is_digit(s[0]));
        }
    }
    lemma_digit_run_all(s, 0);
    let a = digit_run(s, 0);
    assert(a == s.len());
    assert(s.subrange(0, a as int) =~= s);
    assert(digits_value(s.subrange(0, a as int)) == n);
    assert(suffix_exponent(s, a as int) == 0);
    assert(fraction_prefix_value(Seq::<char>::empty(), 0) == 0);
    assert(pow10(0) == 1);
    assert(digits_value(s.subrange(0, a as int)) * pow10(0) + fraction_prefix_value(Seq::<char>::empty(), 0) + 0 == n);
}

proof fn lemma_fraction_prefix_empty(e: nat)
    ensures
        fraction_prefix_value(Seq::<char>::empty(), e) == 0,
    decreases e,
{
    if e > 0 {
        lemma_fraction_prefix_empty((e - 1) as nat);
    }
}

/// A whole number followed by a magnitude letter reads as that number times
/// the letter's magnitude: `k` a thousand, `m` a million, `b` a billion
/// (when the product fits in a `u64`).
pub proof fn lemma_effort_magnitude(n: nat, c: char)
    requires
        c == 'k' || c == 'm' || c == 'b',
    ensures
        c == 'k' && n * 1000 <= u64::MAX ==> effort_spec(decimal(n).push(c)) == Some((n * 1000) as u64),
        c == 'm' && n * 1000000 <= u64::MAX ==> effort_spec(decimal(n).push(c)) == Some((n * 1000000) as u64),
        c == 'b' && n * 1000000000 <= u64::MAX ==> effort_spec(decimal(n).push(c)) == Some((n * 1000000000) as u64),
{
    let d = decimal(n);
    let s = d.push(c);
    lemma_decimal_digits(n);
    assert(is_digit(s[0]));
    assert(s.last() == c);
    assert(trim_start_spec(s) == s);
    assert(trim_end_spec(s) == s);
    assert(s.drop_last() =~= d);
    assert(ascii_lower(c) == c);
    assert(effort_text(s) == s);
    assert(compact_effort_text(s) == s);
    assert(exists|i: int| 0 <= i < s.len() && is_digit(s[i]));
    let p = choose|i: int| 0 <= i < s.len() && is_digit(s[i]) && forall|j: int| 0 <= j < i ==> !is_digit(s[j]);
    assert(0 <= 0 < s.len() && is_digit(s[0]) && forall|j: int| 0 <= j < 0 ==> !is_digit(s[j]));
    if p > 0 {
        assert(!is_digit(s[0]));
    }
    assert(first_digit(s) == Some(0int));
    assert(ascii_before_number(s)) by {
        assert forall|i: int| 0 <= i < s.len() && (forall|j: int| 0 <= j <= i ==> !is_digit(s[j]))
            implies (s[i] as u32) < 128 by {
            assert(!is_digit(s[0]));
        }
    }
    lemma_digit_run_all(d, 0);
    assert forall|i: int| 0 <= i <= d.len() implies digit_run(s, i) == d.len() - i by {
        lemma_digit_run_prefix(s, d, i);
    }
    let a = digit_run(s, 0);
    assert(a == d.len());
    assert(!(a < s.len() && s[a as int] == '.'));
    assert(s.subrange(0, a as int) =~= d);
    let e = suffix_exponent(s, a as int);
    lemma_fraction_prefix_empty(e);
    reveal_with_fuel(pow10, 10);
    if c == 'k' {
        assert(e == 3);
        assert(pow10(3) == 1000);
    } else if c == 'm' {
        assert(e == 6);
        assert(pow10(6) == 1000000);
    } else {
        assert(e == 9);
        assert(pow10(9) == 1000000000);
    }
}

proof fn lemma_pow10_values()
    ensures
        pow10(0) == 1,
        pow10(2) == 100,
        pow10(3) == 1000,
        pow10(5) == 100000,
        pow10(6) == 1000000,
        pow10(8) == 100000000,
        pow10(9) == 1000000000,
{
    reveal_with_fuel(pow10, 10);
}

proof fn lemma_fraction_one_digit(f: Seq<char>, e: nat)
    requires
        f.len() == 1,
        e >= 1,
        e <= 9,
    ensures
        fraction_prefix_value(f, e) == digit_value(f[0]) * pow10((e - 1) as nat),
    decreases e,
{
    let v = digit_value(f[0]);
    if e > 1 {
        let e1 = (e - 1) as nat;
        lemma_fraction_one_digit(f, e1);
        let q = pow10((e1 - 1) as nat);
        assert(fraction_prefix_value(f, e1) == v * q);
        assert(pow10(e1) == 10 * q);
        assert(!((e - 1) < f.len()));
        assert(fraction_prefix_value(f, e) == fraction_prefix_value(f, e1) * 10 + 0);
        assert((v * q) * 10 == v * (10 * q)) by (nonlinear_arith);
    } else {
        assert(e == 1);
        assert(fraction_prefix_value(f, 0) == 0);
        assert(fraction_prefix_value(f, 1) == fraction_prefix_value(f, 0) * 10 + v);
        assert(pow10(0) == 1);
        assert(v * 1 == v);
    }
}

/// The compact text of `n.d` followed by a letter or a space.
proof fn lemma_one_decimal_text(n: nat, d: nat, c: char)
    requires
        d < 10,
        c == 'k' || c == 'm' || c == 'b' || c == ' ',
    ensures
        compact_effort_text(decimal(n) + seq!['.', digit_char(d), c]) == (if c == ' ' {
            decimal(n) + seq!['.', digit_char(d)]
        } else {
            decimal(n) + seq!['.', digit_char(d), c]
        }),
{
    let dn = decimal(n);
    let dc = digit_char(d);
    let s = dn + seq!['.', dc, c];
    lemma_decimal_digits(n);
    lemma_digit_char(d);
    assert(is_digit(s[0]));
    assert(trim_start_spec(s) == s);
    let u = dn + seq!['.', dc];
    assert(s.drop_last() =~= u);
    assert(u.last() == dc);
    assert(trim_end_spec(u) == u);
    assert(u.drop_last() =~= dn + seq!['.']);
    assert((dn + seq!['.']).drop_last() =~= dn);
    assert(effort_text(dn + seq!['.']) =~= dn + seq!['.']);
    assert(effort_text(u) =~= u);
    if c == ' ' {
        assert(trim_spec(s) == u);
    } else {
        assert(trim_end_spec(s) == s);
        assert(ascii_lower(c) == c);
        assert(effort_text(s) =~= s);
    }
}

/// The value of `n.d`, then no letter or a magnitude letter.
#[verifier::rlimit(40)]
proof fn lemma_one_decimal_value(n: nat, d: nat, t: Seq<char>, e: nat)
    requires
        d < 10,
        t.len() == decimal(n).len() + 2 || t.len() == decimal(n).len() + 3,
        t.subrange(0, decimal(n).len() as int) == decimal(n),
        t[decimal(n).len() as int] == '.',
        t[decimal(n).len() as int + 1] == digit_char(d),
        e == suffix_exponent(t, decimal(n).len() as int + 2),
        e == 0 || e == 3 || e == 6 || e == 9,
        t.len() == decimal(n).len() + 3 ==> !is_digit(t[decimal(n).len() as int + 2]),
    ensures
        ascii_before_number(t),
        e == 0 ==> number_effort(t) == Some(
            (if n + (if d >= 5 { 1nat } else { 0nat }) > u64::MAX { u64::MAX as nat } else { n + (if d >= 5 { 1nat } else { 0nat }) }) as u64,
        ),
        e > 0 ==> number_effort(t) == Some(
            (if n * pow10(e) + d * pow10((e - 1) as nat) > u64::MAX { u64::MAX as nat } else { n * pow10(e) + d * pow10((e - 1) as nat) }) as u64,
        ),
{
    let dn = decimal(n);
    let k = dn.len() as int;
    lemma_decimal_digits(n);
    lemma_digit_char(d);
    assert(dn[0] == t[0]);
    assert(is_digit(t[0]));
    assert(exists|i: int| 0 <= i < t.len() && is_digit(t[i]));
    let p = choose|i: int| 0 <= i < t.len() && is_digit(t[i]) && forall|j: int| 0 <= j < i ==> !is_digit(t[j]);
    assert(0 <= 0 < t.len() && is_digit(t[0]) && forall|j: int| 0 <= j < 0 ==> !is_digit(t[j]));
    if p > 0 {
        assert(!is_digit(t[0]));
    }
    assert(first_digit(t) == Some(0int));
    assert(ascii_before_number(t)) by {
        assert forall|i: int| 0 <= i < t.len() && (forall|j: int| 0 <= j <= i ==> !is_digit(t[j]))
            implies (t[i] as u32) < 128 by {
            assert(!is_digit(t[0]));
        }
    }
    assert forall|i: int| 0 <= i < k implies t[i] == dn[i] by {
        assert(t.subrange(0, k)[i] == t[i]);
    }
    assert forall|i: int| 0 <= i <= k implies digit_run(t, i) == k - i by {
        lemma_digit_run_upto(t, dn, i);
    }
    let a = digit_run(t, 0);
    assert(a == k);
    assert(digit_run(t, k + 2) == 0);
    assert(digit_run(t, k + 1) == 1 + digit_run(t, k + 2));
    let frac = t.subrange(k + 1, k + 2);
    assert(frac.len() == 1 && frac[0] == digit_char(d));
    assert(digit_value(frac[0]) == d);
    if e > 0 {
        lemma_fraction_one_digit(frac, e);
    } else {
        assert(fraction_prefix_value(frac, 0) == 0);
        assert(pow10(0) == 1);
    }
}

/// A whole number with one decimal digit reads rounded half up, and with a
/// magnitude letter after it reads as that decimal number scaled by the
/// letter: `n.d` gives `n` plus one when `d` is 5 or more; `n.dk`, `n.dm`
/// and `n.db` give `n` thousands, millions or billions plus `d` tenths of
/// one (when the value fits in a `u64`).
pub proof fn lemma_effort_one_decimal(n: nat, d: nat, c: char)
    requires
        d < 10,
        c == 'k' || c == 'm' || c == 'b' || c == ' ',
    ensures
        c == ' ' && n + 1 <= u64::MAX ==> effort_spec(decimal(n) + seq!['.', digit_char(d), c]) == Some(
            (n + if d >= 5 { 1nat } else { 0nat }) as u64,
        ),
        c == 'k' && n * 1000 + d * 100 <= u64::MAX ==> effort_spec(decimal(n) + seq!['.', digit_char(d), c])
            == Some((n * 1000 + d * 100) as u64),
        c == 'm' && n * 1000000 + d * 100000 <= u64::MAX ==> effort_spec(
            decimal(n) + seq!['.', digit_char(d), c],
        ) == Some((n * 1000000 + d * 100000) as u64),
        c == 'b' && n * 1000000000 + d * 100000000 <= u64::MAX ==> effort_spec(
            decimal(n) + seq!['.', digit_char(d), c],
        ) == Some((n * 1000000000 + d * 100000000) as u64),
{
    let dn = decimal(n);
    let k = dn.len() as int;
    lemma_one_decimal_text(n, d, c);
    lemma_digit_char(d);
    let t = compact_effort_text(dn + seq!['.', digit_char(d), c]);
    assert(t.subrange(0, k) =~= dn);
    let e = suffix_exponent(t, k + 2);
    if c == 'k' {
        assert(e == 3);
    } else if c == 'm' {
        assert(e == 6);
    } else if c == 'b' {
        assert(e == 9);
    } else {
        assert(e == 0);
    }
    lemma_one_decimal_value(n, d, t, e);
    lemma_pow10_values();
}

/// Runs of digits in a text that starts with the all-digit `d` followed by
/// a non-digit.
proof fn lemma_digit_run_upto(s: Seq<char>, d: Seq<char>, i: int)
    requires
        forall|k: int| 0 <= k < d.len() ==> is_digit(#[trigger] d[k]),
        s.len() > d.len(),
        forall|k: int| 0 <= k < d.len() ==> s[k] == d[k],
        !is_digit(s[d.len() as int]),
        0 <= i <= d.len(),
    ensures
        digit_run(s, i) == d.len() - i,
    decreases d.len() - i,
{
    if i < d.len() {
        assert(is_digit(s[i]));
        lemma_digit_run_upto(s, d, i + 1);
    }
}

/// Runs of digits in `d.push(c)` for an all-digit `d` and a non-digit `c`.
proof fn lemma_digit_run_prefix(s: Seq<char>, d: Seq<char>, i: int)
    requires
        forall|k: int| 0 <= k < d.len() ==> is_digit(#[trigger] d[k]),
        s.len() == d.len() + 1,
        forall|k: int| 0 <= k < d.len() ==> s[k] == d[k],
        !is_digit(s[d.len() as int]),
        0 <= i <= d.len(),
    ensures
        digit_run(s, i) == d.len() - i,
    decreases d.len() - i,
{
    if i < d.len() {
        assert(is_digit(s[i]));
        lemma_digit_run_prefix(s, d, i + 1);
    }
}

/// Whether `s` holds an ASCII digit.
pub open spec fn has_digit(s: Seq<char>) -> bool {
    exists|i: int| 0 <= i < s.len() && is_digit(s[i])
}

proof fn lemma_trim_start_digits(s: Seq<char>)
    ensures
        has_digit(trim_start_spec(s)) <==> has_digit(s),
    decreases s.len(),
{
    if s.len() > 0 && is_white(s[0]) {
        let t = s.drop_first();
        lemma_trim_start_digits(t);
        if has_digit(s) {
            let i = choose|i: int| 0 <= i < s.len() && is_digit(s[i]);
            assert(i > 0);
            assert(t[i - 1] == s[i]);
        }
        if has_digit(t) {
            let i = choose|i: int| 0 <= i < t.len() && is_digit(t[i]);
            assert(s[i + 1] == t[i]);
        }
    }
}

proof fn lemma_trim_end_digits(s: Seq<char>)
    ensures
        has_digit(trim_end_spec(s)) <==> has_digit(s),
    decreases s.len(),
{
    if s.len() > 0 && is_white(s.last()) {
        let t = s.drop_last();
        lemma_trim_end_digits(t);
        if has_digit(s) {
            let i = choose|i: int| 0 <= i < s.len() && is_digit(s[i]);
            assert(i < s.len() - 1);
            assert(t[i] == s[i]);
        }
        if has_digit(t) {
            let i = choose|i: int| 0 <= i < t.len() && is_digit(t[i]);
            assert(s[i] == t[i]);
        }
    }
}

/// Lower-casing and dropping separators keeps exactly the digits there were.
proof fn lemma_effort_text_digits(v: Seq<char>)
    ensures
        (exists|i: int| 0 <= i < effort_text(v).len() && is_digit(effort_text(v)[i]))
            <==> (exists|i: int| 0 <= i < v.len() && is_digit(v[i])),
    decreases v.len(),
{
    if v.len() > 0 {
        let w = v.drop_last();
        lemma_effort_text_digits(w);
        let rest = effort_text(w);
        let c = v.last();
        let t = effort_text(v);
        if exists|i: int| 0 <= i < v.len() && is_digit(v[i]) {
            let i = choose|i: int| 0 <= i < v.len() && is_digit(v[i]);
            if i < w.len() {
                assert(is_digit(w[i]));
                let k = choose|k: int| 0 <= k < rest.len() && is_digit(rest[k]);
                assert(t[k] == rest[k]);
            } else {
                assert(c == v[i]);
                assert(t[t.len() - 1] == ascii_lower(c));
            }
        }
        if exists|i: int| 0 <= i < t.len() && is_digit(t[i]) {
            let i = choose|i: int| 0 <= i < t.len() && is_digit(t[i]);
            if i < rest.len() {
                assert(rest[i] == t[i]);
                let k = choose|k: int| 0 <= k < w.len() && is_digit(w[k]);
                assert(v[k] == w[k]);
            } else {
                assert(is_digit(v[v.len() - 1]));
            }
        }
    }
}

/// Text without an ASCII digit gives no effort; text with one gives an
/// effort whenever every character before its number is ASCII.
pub proof fn lemma_effort_needs_digit(v: Seq<char>)
    ensures
        !has_digit(v) ==> effort_spec(v) is None,
        has_digit(v) && ascii_before_number(compact_effort_text(v)) ==> effort_spec(v) is Some,
{
    lemma_trim_start_digits(v);
    lemma_trim_end_digits(trim_start_spec(v));
    lemma_effort_text_digits(trim_spec(v));
}

} // verus!
