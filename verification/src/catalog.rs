//! Text rules of the generated ticket catalog: summaries, state and
//! component keys, keyword tokens and the rendered markdown.
use vstd::prelude::*;
use crate::text::{chars_of, string_of};
use crate::workflow::order::{order_chars, lemma_order_chars, lemma_order_chars_trans, compare_chars};

verus! {

/// Unicode `White_Space`, the set `char::is_whitespace` tests.
pub open spec fn is_white(c: char) -> bool {
    ||| c == '\t' || c == '\n' || c == '\u{B}' || c == '\u{C}' || c == '\r' || c == ' '
    ||| c == '\u{85}' || c == '\u{A0}' || c == '\u{1680}'
    ||| ('\u{2000}' <= c && c <= '\u{200A}')
    ||| c == '\u{2028}' || c == '\u{2029}' || c == '\u{202F}' || c == '\u{205F}' || c == '\u{3000}'
}

/// Whether a character is white space (`char::is_whitespace`).
pub fn is_whitespace(c: char) -> (r: bool)
    ensures
        r == is_white(c),
{
    c == '\t' || c == '\n' || c == '\u{B}' || c == '\u{C}' || c == '\r' || c == ' '
        || c == '\u{85}' || c == '\u{A0}' || c == '\u{1680}'
        || ('\u{2000}' <= c && c <= '\u{200A}')
        || c == '\u{2028}' || c == '\u{2029}' || c == '\u{202F}' || c == '\u{205F}' || c == '\u{3000}'
}

/// `s` without leading white space.
pub open spec fn trim_start_spec(s: Seq<char>) -> Seq<char>
    decreases s.len(),
{
    if s.len() > 0 && is_white(s[0]) { trim_start_spec(s.drop_first()) } else { s }
}

/// `s` without trailing white space.
pub open spec fn trim_end_spec(s: Seq<char>) -> Seq<char>
    decreases s.len(),
{
    if s.len() > 0 && is_white(s.last()) { trim_end_spec(s.drop_last()) } else { s }
}

/// `s` without leading and trailing white space (`str::trim`).
pub open spec fn trim_spec(s: Seq<char>) -> Seq<char> {
    trim_end_spec(trim_start_spec(s))
}

/// A list marker character: `-`, `*` or `+`.
pub open spec fn is_bullet(c: char) -> bool {
    c == '-' || c == '*' || c == '+'
}

/// A numbering character: an ASCII digit, `.` or `)`.
pub open spec fn is_numbering(c: char) -> bool {
    ('0' <= c && c <= '9') || c == '.' || c == ')'
}

pub open spec fn strip_bullets(s: Seq<char>) -> Seq<char>
    decreases s.len(),
{
    if s.len() > 0 && is_bullet(s[0]) { strip_bullets(s.drop_first()) } else { s }
}

pub open spec fn strip_numbering(s: Seq<char>) -> Seq<char>
    decreases s.len(),
{
    if s.len() > 0 && is_numbering(s[0]) { strip_numbering(s.drop_first()) } else { s }
}

/// The words of `s` (maximal runs of non-white characters) joined by one
/// space each (`split_whitespace` then `join(" ")`).
pub open spec fn collapse_ws(s: Seq<char>) -> Seq<char>
    decreases s.len(),
{
    if s.len() == 0 {
        Seq::empty()
    } else {
        let rest = collapse_ws(s.drop_last());
        let c = s.last();
        if is_white(c) {
            rest
        } else if s.len() >= 2 && !is_white(s[s.len() - 2]) {
            rest.push(c)
        } else if rest.len() == 0 {
            seq![c]
        } else {
            rest.push(' ').push(c)
        }
    }
}

/// The first `n` characters followed by `...` when `s` is longer than
/// `max` characters (`n` is `max - 1`, or 0), else `s` itself.
pub open spec fn truncate_spec(s: Seq<char>, max: nat) -> Seq<char> {
    if s.len() <= max {
        s
    } else {
        let take: int = if max >= 1 { max - 1 } else { 0 };
        s.subrange(0, take) + seq!['.', '.', '.']
    }
}

pub open spec fn is_fence(t: Seq<char>) -> bool {
    t.len() >= 3 && t[0] == '`' && t[1] == '`' && t[2] == '`'
}

/// The cleaned text of one line: trimmed, then without leading list
/// markers and numbering, trimmed again. Headings and fences give nothing.
pub open spec fn clean_line(line: Seq<char>) -> Seq<char> {
    let t = trim_spec(line);
    if t.len() == 0 || t[0] == '#' || is_fence(t) {
        Seq::empty()
    } else {
        trim_spec(strip_numbering(strip_bullets(t)))
    }
}

/// Index of the first line break at or after `i`, or the length.
pub open spec fn line_end(s: Seq<char>, i: int) -> int
    decreases s.len() - i,
{
    if i >= s.len() || s[i] == '\n' { i } else { line_end(s, i + 1) }
}

/// Where the line starting at `i` ends: at a line break or at the end.
pub proof fn lemma_line_end(s: Seq<char>, i: int)
    requires
        0 <= i <= s.len(),
    ensures
        i <= line_end(s, i) <= s.len(),
        line_end(s, i) < s.len() ==> s[line_end(s, i)] == '\n',
        forall|k: int| i <= k < line_end(s, i) ==> s[k] != '\n',
    decreases s.len() - i,
{
    if i < s.len() && s[i] != '\n' {
        lemma_line_end(s, i + 1);
    }
}

/// The summary of a description read from position `i` on: the first line
/// with text after cleaning, with its white space collapsed and cut to 200
/// characters; empty when there is no such line.
pub open spec fn summary_from(s: Seq<char>, i: int) -> Seq<char>
    decreases s.len() - i,
{
    if i > s.len() || i < 0 {
        Seq::empty()
    } else {
        let e = line_end(s, i);
        let c = clean_line(s.subrange(i, e));
        if c.len() > 0 {
            truncate_spec(collapse_ws(c), 200)
        } else if e >= s.len() {
            Seq::empty()
        } else {
            proof {
                lemma_line_end(s, i);
            }
            summary_from(s, e + 1)
        }
    }
}


/// The end of the line that starts at `i` (see `line_end`).
fn line_end_exec(v: &Vec<char>, i: usize) -> (e: usize)
    requires
        i <= v@.len(),
    ensures
        e as int == line_end(v@, i as int),
        i <= e <= v@.len(),
{
    proof {
        lemma_line_end(v@, i as int);
    }
    let mut k: usize = i;
    while k < v.len() && v[k] != '\n'
        invariant
            i <= k <= v@.len(),
            line_end(v@, k as int) == line_end(v@, i as int),
        decreases v@.len() - k,
    {
        k = k + 1;
    }
    k
}

/// Skips white space at the front of `v[a..b]`.
fn skip_white_front(v: &Vec<char>, a: usize, b: usize) -> (r: usize)
    requires
        a <= b <= v@.len(),
    ensures
        a <= r <= b,
        v@.subrange(r as int, b as int) == trim_start_spec(v@.subrange(a as int, b as int)),
{
    let mut k: usize = a;
    while k < b && is_whitespace(v[k])
        invariant
            a <= k <= b <= v@.len(),
            trim_start_spec(v@.subrange(k as int, b as int)) == trim_start_spec(
                v@.subrange(a as int, b as int),
            ),
        decreases b - k,
    {
        assert(v@.subrange(k as int, b as int).drop_first() =~= v@.subrange(k + 1, b as int));
        k = k + 1;
    }
    k
}

/// Skips white space at the back of `v[a..b]`.
fn skip_white_back(v: &Vec<char>, a: usize, b: usize) -> (r: usize)
    requires
        a <= b <= v@.len(),
    ensures
        a <= r <= b,
        v@.subrange(a as int, r as int) == trim_end_spec(v@.subrange(a as int, b as int)),
{
    let mut k: usize = b;
    while k > a && is_whitespace(v[k - 1])
        invariant
            a <= k <= b <= v@.len(),
            trim_end_spec(v@.subrange(a as int, k as int)) == trim_end_spec(
                v@.subrange(a as int, b as int),
            ),
        decreases k - a,
    {
        assert(v@.subrange(a as int, k as int).drop_last() =~= v@.subrange(a as int, k - 1));
        k = k - 1;
    }
    k
}

/// The bounds of `trim_spec(v[a..b])` inside `v`.
pub(crate) fn trim_bounds(v: &Vec<char>, a: usize, b: usize) -> (r: (usize, usize))
    requires
        a <= b <= v@.len(),
    ensures
        a <= r.0 <= r.1 <= b,
        v@.subrange(r.0 as int, r.1 as int) == trim_spec(v@.subrange(a as int, b as int)),
{
    let s = skip_white_front(v, a, b);
    let e = skip_white_back(v, s, b);
    (s, e)
}

/// Skips list markers at the front of `v[a..b]`.
fn skip_bullets(v: &Vec<char>, a: usize, b: usize) -> (r: usize)
    requires
        a <= b <= v@.len(),
    ensures
        a <= r <= b,
        v@.subrange(r as int, b as int) == strip_bullets(v@.subrange(a as int, b as int)),
{
    let mut k: usize = a;
    while k < b && (v[k] == '-' || v[k] == '*' || v[k] == '+')
        invariant
            a <= k <= b <= v@.len(),
            strip_bullets(v@.subrange(k as int, b as int)) == strip_bullets(
                v@.subrange(a as int, b as int),
            ),
        decreases b - k,
    {
        assert(v@.subrange(k as int, b as int).drop_first() =~= v@.subrange(k + 1, b as int));
        k = k + 1;
    }
    k
}

/// Skips numbering characters at the front of `v[a..b]`.
fn skip_numbering(v: &Vec<char>, a: usize, b: usize) -> (r: usize)
    requires
        a <= b <= v@.len(),
    ensures
        a <= r <= b,
        v@.subrange(r as int, b as int) == strip_numbering(v@.subrange(a as int, b as int)),
{
    let mut k: usize = a;
    while k < b && (('0' <= v[k] && v[k] <= '9') || v[k] == '.' || v[k] == ')')
        invariant
            a <= k <= b <= v@.len(),
            strip_numbering(v@.subrange(k as int, b as int)) == strip_numbering(
                v@.subrange(a as int, b as int),
            ),
        decreases b - k,
    {
        assert(v@.subrange(k as int, b as int).drop_first() =~= v@.subrange(k + 1, b as int));
        k = k + 1;
    }
    k
}

/// The bounds of `clean_line(v[a..b])` inside `v`, or `None` when the
/// cleaned line is empty.
fn clean_bounds(v: &Vec<char>, a: usize, b: usize) -> (r: Option<(usize, usize)>)
    requires
        a <= b <= v@.len(),
    ensures
        match r {
            Some((x, y)) => x < y <= v@.len() && v@.subrange(x as int, y as int) == clean_line(
                v@.subrange(a as int, b as int),
            ),
            None => clean_line(v@.subrange(a as int, b as int)).len() == 0,
        },
{
    let (s, e) = trim_bounds(v, a, b);
    let ghost t = v@.subrange(s as int, e as int);
    if s == e {
        return None;
    }
    assert(t[0] == v@[s as int]);
    if v[s] == '#' {
        return None;
    }
    if e - s >= 3 && v[s] == '`' && v[s + 1] == '`' && v[s + 2] == '`' {
        assert(is_fence(t));
        return None;
    }
    assert(!is_fence(t)) by {
        if t.len() >= 3 {
            assert(t[1] == v@[s + 1]);
            assert(t[2] == v@[s + 2]);
        }
    }
    let s1 = skip_bullets(v, s, e);
    let s2 = skip_numbering(v, s1, e);
    let (x, y) = trim_bounds(v, s2, e);
    if x == y {
        None
    } else {
        Some((x, y))
    }
}

/// `v[a..b]` with white space runs collapsed (see `collapse_ws`).
fn collapse_range(v: &Vec<char>, a: usize, b: usize) -> (out: Vec<char>)
    requires
        a <= b <= v@.len(),
    ensures
        out@ == collapse_ws(v@.subrange(a as int, b as int)),
{
    let mut out: Vec<char> = Vec::new();
    let mut k: usize = a;
    assert(v@.subrange(a as int, a as int) =~= Seq::<char>::empty());
    while k < b
        invariant
            a <= k <= b <= v@.len(),
            out@ == collapse_ws(v@.subrange(a as int, k as int)),
        decreases b - k,
    {
        let ghost sub = v@.subrange(a as int, k + 1);
        assert(sub.drop_last() =~= v@.subrange(a as int, k as int));
        assert(sub.last() == v@[k as int]);
        let c = v[k];
        if is_whitespace(c) {
        } else if k > a && !is_whitespace(v[k - 1]) {
            assert(sub[sub.len() - 2] == v@[k - 1]);
            out.push(c);
        } else if out.len() == 0 {
            proof {
                if sub.len() >= 2 {
                    assert(sub[sub.len() - 2] == v@[k - 1]);
                }
            }
            out.push(c);
            assert(out@ =~= seq![c]);
        } else {
            proof {
                if sub.len() >= 2 {
                    assert(sub[sub.len() - 2] == v@[k - 1]);
                }
            }
            out.push(' ');
            out.push(c);
        }
        k = k + 1;
    }
    out
}

/// `input` cut to `max_chars` characters: the first `max_chars - 1`
/// followed by `...` when it is longer, unchanged otherwise.
pub fn truncate_chars(input: &str, max_chars: usize) -> (r: String)
    ensures
        r@ == truncate_spec(input@, max_chars as nat),
{
    let v = chars_of(input);
    if v.len() <= max_chars {
        return string_of(v.as_slice());
    }
    let take: usize = if max_chars >= 1 { max_chars - 1 } else { 0 };
    let mut out: Vec<char> = Vec::new();
    let mut k: usize = 0;
    while k < take
        invariant
            take < v@.len(),
            k <= take,
            out@ == v@.subrange(0, k as int),
        decreases take - k,
    {
        out.push(v[k]);
        k = k + 1;
    }
    out.push('.');
    out.push('.');
    out.push('.');
    assert(out@ =~= v@.subrange(0, take as int) + seq!['.', '.', '.']);
    string_of(out.as_slice())
}

/// The catalog summary of a ticket description: its first line with text
/// (headings, code fences and blank lines skipped; list markers and
/// numbering removed), white space collapsed, cut to 200 characters.
pub fn normalize_summary(description: &str) -> (r: String)
    ensures
        r@ == summary_from(description@, 0),
{
    let v = chars_of(description);
    let n = v.len();
    let mut i: usize = 0;
    loop
        invariant
            n == v@.len(),
            v@ == description@,
            i <= n,
            summary_from(v@, i as int) == summary_from(v@, 0),
        decreases n - i,
    {
        let e = line_end_exec(&v, i);
        match clean_bounds(&v, i, e) {
            Some((x, y)) => {
                let col = collapse_range(&v, x, y);
                let text = string_of(col.as_slice());
                return truncate_chars(text.as_str(), 200);
            },
            None => {},
        }
        if e >= n {
            return String::new();
        }
        i = e + 1;
    }
}


/// `c` with an ASCII capital letter turned into its lower-case letter.
pub open spec fn ascii_lower(c: char) -> char {
    if 'A' <= c && c <= 'Z' {
        ((c as int) + 32) as char
    } else {
        c
    }
}

/// The lower-case form of an ASCII capital letter (`char::to_ascii_lowercase`).
pub fn ascii_lower_exec(c: char) -> (r: char)
    ensures
        r == ascii_lower(c),
{
    if 'A' <= c && c <= 'Z' {
        let u: u32 = c as u32;
        let b: u8 = (u + 32) as u8;
        b as char
    } else {
        c
    }
}


/// One character of a normalized token: lower-case, with `_` and the space
/// turned into `-`.
pub open spec fn token_char(c: char) -> char {
    if c == '_' || c == ' ' {
        '-'
    } else {
        ascii_lower(c)
    }
}

/// A normalized token: trimmed, ASCII letters in lower case, `_` and spaces
/// replaced by `-`.
pub open spec fn token_spec(s: Seq<char>) -> Seq<char> {
    trim_spec(s).map_values(|c: char| token_char(c))
}

/// Normalizes a tag, state, component or keyword token.
pub fn normalize_token(input: &str) -> (r: String)
    ensures
        r@ == token_spec(input@),
{
    let v = chars_of(input);
    let (a, b) = trim_bounds(&v, 0, v.len());
    assert(v@.subrange(0, v@.len() as int) =~= v@);
    let mut out: Vec<char> = Vec::new();
    let mut k: usize = a;
    while k < b
        invariant
            a <= k <= b <= v@.len(),
            out@ == v@.subrange(a as int, k as int).map_values(|c: char| token_char(c)),
        decreases b - k,
    {
        let c = v[k];
        let t = if c == '_' || c == ' ' { '-' } else { ascii_lower_exec(c) };
        out.push(t);
        assert(v@.subrange(a as int, k + 1) =~= v@.subrange(a as int, k as int).push(c));
        assert(out@ =~= v@.subrange(a as int, k + 1).map_values(|c: char| token_char(c)));
        k = k + 1;
    }
    string_of(out.as_slice())
}

/// The catalog key of a state: its normalized token, or `unknown`.
pub open spec fn state_key_spec(state: Seq<char>) -> Seq<char> {
    if token_spec(state).len() == 0 {
        seq!['u', 'n', 'k', 'n', 'o', 'w', 'n']
    } else {
        token_spec(state)
    }
}

/// The catalog key of a ticket state.
pub fn state_key(state: &str) -> (r: String)
    ensures
        r@ == state_key_spec(state@),
{
    let cleaned = normalize_token(state);
    if cleaned.unicode_len() == 0 {
        let r = String::from_str("unknown");
        proof {
            reveal_strlit("unknown");
        }
        r
    } else {
        cleaned
    }
}

/// The catalog key of a component: its normalized token when it has one
/// that is not empty, else `unspecified`.
pub open spec fn component_key_spec(component: Option<Seq<char>>) -> Seq<char> {
    match component {
        Some(c) if token_spec(c).len() > 0 => token_spec(c),
        _ => seq!['u', 'n', 's', 'p', 'e', 'c', 'i', 'f', 'i', 'e', 'd'],
    }
}

/// The catalog key of a ticket component.
pub fn component_key(component: Option<&str>) -> (r: String)
    ensures
        r@ == component_key_spec(
            match component {
                Some(c) => Some(c@),
                None => None,
            },
        ),
{
    match component {
        Some(c) => {
            let t = normalize_token(c);
            if t.unicode_len() > 0 {
                return t;
            }
        },
        None => {},
    }
    let r = String::from_str("unspecified");
    proof {
        reveal_strlit("unspecified");
    }
    r
}


/// An ASCII letter or digit.
pub open spec fn is_ascii_alnum(c: char) -> bool {
    ('0' <= c && c <= '9') || ('a' <= c && c <= 'z') || ('A' <= c && c <= 'Z')
}

/// `words` with `w` added when it has at least three characters.
pub open spec fn keep_word(words: Seq<Seq<char>>, w: Seq<char>) -> Seq<Seq<char>> {
    if w.len() >= 3 {
        words.push(w)
    } else {
        words
    }
}

/// After reading `s`: the keywords completed so far and the lower-cased
/// run of letters and digits still open at the end.
pub open spec fn keyword_scan(s: Seq<char>) -> (Seq<Seq<char>>, Seq<char>)
    decreases s.len(),
{
    if s.len() == 0 {
        (Seq::empty(), Seq::empty())
    } else {
        let prev = keyword_scan(s.drop_last());
        let c = s.last();
        if is_ascii_alnum(c) {
            (prev.0, prev.1.push(ascii_lower(c)))
        } else {
            (keep_word(prev.0, prev.1), Seq::empty())
        }
    }
}

/// The keywords of a text: its maximal runs of ASCII letters and digits,
/// lower-cased, that have at least three characters, in order.
pub open spec fn keywords_spec(s: Seq<char>) -> Seq<Seq<char>> {
    keep_word(keyword_scan(s).0, keyword_scan(s).1)
}

/// The views of a sequence of strings.
pub open spec fn str_views(s: Seq<String>) -> Seq<Seq<char>> {
    s.map_values(|x: String| x@)
}

/// The keywords of a title or description (see `keywords_spec`).
pub fn words_for_keywords(input: &str) -> (r: Vec<String>)
    ensures
        str_views(r@) == keywords_spec(input@),
{
    let v = chars_of(input);
    let mut done: Vec<String> = Vec::new();
    let mut cur: Vec<char> = Vec::new();
    let mut k: usize = 0;
    assert(v@.subrange(0, 0) =~= Seq::<char>::empty());
    while k < v.len()
        invariant
            k <= v@.len(),
            v@ == input@,
            str_views(done@) == keyword_scan(v@.subrange(0, k as int)).0,
            cur@ == keyword_scan(v@.subrange(0, k as int)).1,
        decreases v@.len() - k,
    {
        let ghost sub = v@.subrange(0, k + 1);
        assert(sub.drop_last() =~= v@.subrange(0, k as int));
        let c = v[k];
        if ('0' <= c && c <= '9') || ('a' <= c && c <= 'z') || ('A' <= c && c <= 'Z') {
            let l = ascii_lower_exec(c);
            cur.push(l);
        } else {
            if cur.len() >= 3 {
                let w = string_of(cur.as_slice());
                let ghost old_done = done@;
                done.push(w);
                assert(str_views(done@) =~= str_views(old_done).push(w@));
            }
            cur = Vec::new();
            assert(cur@ =~= Seq::<char>::empty());
        }
        k = k + 1;
    }
    assert(v@.subrange(0, v@.len() as int) =~= v@);
    if cur.len() >= 3 {
        let w = string_of(cur.as_slice());
        let ghost old_done = done@;
        done.push(w);
        assert(str_views(done@) =~= str_views(old_done).push(w@));
    }
    done
}

/// Strictly increasing in code-point order: sorted, nothing twice.
pub open spec fn strictly_sorted(s: Seq<Seq<char>>) -> bool {
    forall|i: int, j: int| 0 <= i < j < s.len() ==> order_chars(s[i], s[j]) < 0
}

/// The non-empty normalized tokens of `items`.
pub open spec fn token_set(items: Seq<String>) -> Set<Seq<char>> {
    Set::new(
        |t: Seq<char>|
            t.len() > 0 && exists|i: int| 0 <= i < items.len() && token_spec(items[i]@) == t,
    )
}

proof fn lemma_order_lt_trans(a: Seq<char>, b: Seq<char>, c: Seq<char>)
    requires
        order_chars(a, b) < 0,
        order_chars(b, c) < 0,
    ensures
        order_chars(a, c) < 0,
{
    lemma_order_chars_trans(a, b, c);
    lemma_order_chars(a, c);
    lemma_order_chars(b, c);
    lemma_order_chars(a, b);
    if order_chars(a, c) == 0 {
        assert(a == c);
    }
}

pub open spec fn vec_views(s: Seq<Vec<char>>) -> Seq<Seq<char>> {
    s.map_values(|x: Vec<char>| x@)
}

/// Inserts `t` into a strictly sorted list unless it is already there.
pub(crate) fn insert_token(out: &mut Vec<Vec<char>>, t: Vec<char>)
    requires
        strictly_sorted(vec_views(old(out)@)),
    ensures
        strictly_sorted(vec_views(final(out)@)),
        vec_views(final(out)@).to_set() == vec_views(old(out)@).to_set().insert(t@),
{
    let ghost ov = vec_views(out@);
    let mut p: usize = 0;
    while p < out.len() && compare_chars(&out[p], &t) < 0
        invariant
            p <= out@.len(),
            out@ == old(out)@,
            ov == vec_views(out@),
            forall|q: int| 0 <= q < p ==> order_chars(ov[q], t@) < 0,
        decreases out@.len() - p,
    {
        p = p + 1;
    }
    if p < out.len() {
        let c = compare_chars(&out[p], &t);
        if c == 0 {
            proof {
                lemma_order_chars(ov[p as int], t@);
                assert(ov.contains(t@));
                assert(ov.to_set().insert(t@) =~= ov.to_set());
            }
            return;
        }
        proof {
            lemma_order_chars(ov[p as int], t@);
        }
    }
    out.insert(p, t);
    proof {
        let nv = vec_views(out@);
        assert(nv =~= ov.insert(p as int, t@));
        ov.insert_ensures(p as int, t@);
        assert forall|i: int, j: int| 0 <= i < j < nv.len() implies order_chars(nv[i], nv[j]) < 0 by {
            if j < p {
            } else if j == p {
            } else if i == p {
                if j - 1 > p {
                    lemma_order_lt_trans(t@, ov[p as int], ov[j - 1]);
                }
            } else if i < p {
                lemma_order_lt_trans(ov[i], t@, ov[p as int]);
                if j - 1 > p {
                    lemma_order_lt_trans(ov[i], ov[p as int], ov[j - 1]);
                }
            }
        }
        assert forall|x: Seq<char>| nv.to_set().contains(x) <==> ov.to_set().insert(t@).contains(x) by {
            if nv.contains(x) {
                let k = choose|k: int| 0 <= k < nv.len() && nv[k] == x;
                if k < p {
                    assert(ov[k] == x);
                } else if k > p {
                    assert(ov[k - 1] == x);
                }
            }
            if ov.contains(x) {
                let k = choose|k: int| 0 <= k < ov.len() && ov[k] == x;
                if k < p {
                    assert(nv[k] == x);
                } else {
                    assert(nv[k + 1] == x);
                }
            }
            if x == t@ {
                assert(nv[p as int] == x);
            }
        }
        assert(nv.to_set() =~= ov.to_set().insert(t@));
    }
}

/// Normalizes every token, drops the empty ones, sorts them in code-point
/// order and keeps each once.
pub fn normalize_tokens(items: &mut Vec<String>)
    ensures
        strictly_sorted(str_views(final(items)@)),
        str_views(final(items)@).to_set() == token_set(old(items)@),
{
    let n = items.len();
    let mut out: Vec<Vec<char>> = Vec::new();
    let mut i: usize = 0;
    assert(vec_views(out@).to_set() =~= Set::<Seq<char>>::empty());
    while i < n
        invariant
            n == items@.len(),
            items@ == old(items)@,
            i <= n,
            strictly_sorted(vec_views(out@)),
            vec_views(out@).to_set() == Set::new(
                |t: Seq<char>|
                    t.len() > 0 && exists|q: int| 0 <= q < i && token_spec(items@[q]@) == t,
            ),
        decreases n - i,
    {
        let t = normalize_token(items[i].as_str());
        let tv = chars_of(t.as_str());
        let ghost before = vec_views(out@).to_set();
        if tv.len() > 0 {
            insert_token(&mut out, tv);
        }
        proof {
            let want = Set::new(
                |x: Seq<char>|
                    x.len() > 0 && exists|q: int| 0 <= q < i + 1 && token_spec(items@[q]@) == x,
            );
            assert forall|x: Seq<char>| vec_views(out@).to_set().contains(x) <==> want.contains(x) by {
                if x.len() > 0 && token_spec(items@[i as int]@) == x {
                    assert(exists|q: int| 0 <= q < i + 1 && token_spec(items@[q]@) == x);
                }
                if want.contains(x) {
                    let q = choose|q: int| 0 <= q < i + 1 && token_spec(items@[q]@) == x;
                    if q < i {
                        assert(before.contains(x));
                    }
                }
                if before.contains(x) {
                    let q = choose|q: int| 0 <= q < i && token_spec(items@[q]@) == x;
                    assert(0 <= q < i + 1 && token_spec(items@[q]@) == x);
                }
            }
            assert(vec_views(out@).to_set() =~= want);
        }
        i = i + 1;
    }
    let mut res: Vec<String> = Vec::new();
    let mut k: usize = 0;
    while k < out.len()
        invariant
            k <= out@.len(),
            str_views(res@) == vec_views(out@).subrange(0, k as int),
        decreases out@.len() - k,
    {
        let s = string_of(out[k].as_slice());
        let ghost old_res = res@;
        res.push(s);
        assert(str_views(res@) =~= str_views(old_res).push(s@));
        assert(vec_views(out@).subrange(0, k + 1) =~= vec_views(out@).subrange(0, k as int).push(out@[k as int]@));
        k = k + 1;
    }
    assert(vec_views(out@).subrange(0, out@.len() as int) =~= vec_views(out@));
    assert(token_set(old(items)@) =~= vec_views(out@).to_set());
    *items = res;
}


proof fn lemma_token_char_idempotent(c: char)
    ensures
        token_char(token_char(c)) == token_char(c),
        is_white(token_char(c)) ==> is_white(c) && c != ' ',
{
    if 'A' <= c && c <= 'Z' {
        assert('a' <= ((c as int) + 32) as char && ((c as int) + 32) as char <= 'z');
    }
}

proof fn lemma_trim_of_clean(s: Seq<char>)
    requires
        s.len() == 0 || (!is_white(s[0]) && !is_white(s.last())),
    ensures
        trim_spec(s) == s,
{
}

proof fn lemma_trim_ends(s: Seq<char>)
    ensures
        trim_spec(s).len() == 0 || (!is_white(trim_spec(s)[0]) && !is_white(trim_spec(s).last())),
    decreases s.len(),
{
    lemma_trim_start_ends(s);
    lemma_trim_end_ends(trim_start_spec(s));
}

proof fn lemma_trim_start_ends(s: Seq<char>)
    ensures
        trim_start_spec(s).len() == 0 || !is_white(trim_start_spec(s)[0]),
    decreases s.len(),
{
    if s.len() > 0 && is_white(s[0]) {
        lemma_trim_start_ends(s.drop_first());
    }
}

proof fn lemma_trim_end_ends(s: Seq<char>)
    requires
        s.len() == 0 || !is_white(s[0]),
    ensures
        trim_end_spec(s).len() == 0 || (!is_white(trim_end_spec(s)[0]) && !is_white(trim_end_spec(s).last())),
    decreases s.len(),
{
    if s.len() > 0 && is_white(s.last()) {
        if s.len() > 1 {
            assert(s.drop_last()[0] == s[0]);
        }
        lemma_trim_end_ends(s.drop_last());
    }
}

/// A normalized token is normalized already: normalizing it again changes
/// nothing.
pub proof fn lemma_token_idempotent(s: Seq<char>)
    ensures
        token_spec(token_spec(s)) == token_spec(s),
{
    let t = trim_spec(s);
    let u = token_spec(s);
    lemma_trim_ends(s);
    if u.len() > 0 {
        lemma_token_char_idempotent(t[0]);
        lemma_token_char_idempotent(t.last());
        assert(u[0] == token_char(t[0]));
        assert(u.last() == token_char(t.last()));
    }
    lemma_trim_of_clean(u);
    assert forall|i: int| 0 <= i < u.len() implies token_char(u[i]) == u[i] by {
        lemma_token_char_idempotent(t[i]);
    }
    assert(token_spec(u) =~= u);
}

/// Strictly sorted sequences with the same elements are equal.
pub proof fn lemma_sorted_unique(a: Seq<Seq<char>>, b: Seq<Seq<char>>)
    requires
        strictly_sorted(a),
        strictly_sorted(b),
        a.to_set() == b.to_set(),
    ensures
        a == b,
    decreases a.len(),
{
    if a.len() == 0 {
        if b.len() > 0 {
            assert(b.to_set().contains(b[0]));
        }
    } else if b.len() == 0 {
        assert(a.to_set().contains(a[0]));
    } else {
        let x = a.last();
        let y = b.last();
        assert(a.to_set().contains(x));
        assert(b.to_set().contains(y));
        let j = choose|j: int| 0 <= j < b.len() && b[j] == x;
        let i = choose|i: int| 0 <= i < a.len() && a[i] == y;
        if x != y {
            crate::workflow::order::lemma_order_chars(x, y);
            if j < b.len() - 1 {
                assert(order_chars(b[j], y) < 0);
            }
            if i < a.len() - 1 {
                assert(order_chars(a[i], x) < 0);
            }
            assert(false);
        }
        let a1 = a.drop_last();
        let b1 = b.drop_last();
        assert forall|z: Seq<char>| a1.to_set().contains(z) <==> b1.to_set().contains(z) by {
            if a1.contains(z) {
                let k = choose|k: int| 0 <= k < a1.len() && a1[k] == z;
                assert(order_chars(a[k], x) < 0);
                crate::workflow::order::lemma_order_chars(z, x);
                assert(a.to_set().contains(z));
                let m = choose|m: int| 0 <= m < b.len() && b[m] == z;
                assert(m != b.len() - 1);
                assert(b1[m] == z);
            }
            if b1.contains(z) {
                let k = choose|k: int| 0 <= k < b1.len() && b1[k] == z;
                assert(order_chars(b[k], y) < 0);
                crate::workflow::order::lemma_order_chars(z, y);
                assert(b.to_set().contains(z));
                let m = choose|m: int| 0 <= m < a.len() && a[m] == z;
                assert(m != a.len() - 1);
                assert(a1[m] == z);
            }
        }
        assert(a1.to_set() =~= b1.to_set());
        lemma_sorted_unique(a1, b1);
        assert(a =~= a1.push(x));
        assert(b =~= b1.push(y));
    }
}

/// Normalizing an already normalized token list changes nothing: if `y` is
/// what normalizing `x` gives and `z` what normalizing `y` gives, then `z`
/// is `y`.
pub proof fn lemma_normalize_tokens_idempotent(x: Seq<String>, y: Seq<String>, z: Seq<String>)
    requires
        strictly_sorted(str_views(y)),
        str_views(y).to_set() == token_set(x),
        strictly_sorted(str_views(z)),
        str_views(z).to_set() == token_set(y),
    ensures
        str_views(z) == str_views(y),
{
    assert forall|t: Seq<char>| token_set(y).contains(t) <==> str_views(y).to_set().contains(t) by {
        if str_views(y).to_set().contains(t) {
            let i = choose|i: int| 0 <= i < str_views(y).len() && str_views(y)[i] == t;
            assert(token_set(x).contains(t));
            let j = choose|j: int| 0 <= j < x.len() && token_spec(x[j]@) == t;
            lemma_token_idempotent(x[j]@);
            assert(token_spec(y[i]@) == t);
        }
        if token_set(y).contains(t) {
            let i = choose|i: int| 0 <= i < y.len() && token_spec(y[i]@) == t;
            assert(str_views(y)[i] == y[i]@);
            assert(str_views(y).to_set().contains(y[i]@));
            assert(token_set(x).contains(y[i]@));
            let j = choose|j: int| 0 <= j < x.len() && token_spec(x[j]@) == y[i]@;
            lemma_token_idempotent(x[j]@);
            assert(str_views(y)[i] == t);
        }
    }
    assert(token_set(y) =~= str_views(y).to_set());
    lemma_sorted_unique(str_views(z), str_views(y));
}

} // verus!
