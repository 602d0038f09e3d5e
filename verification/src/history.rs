//! Revision history of a ticket: revision specifiers and the difference of
//! a ticket's fields between two revisions.
use vstd::prelude::*;
use crate::text::{str_eq, chars_of};
use crate::human::{JsonValue, first_index};
use crate::effort::is_digit;

verus! {

/// The value of a string of ASCII digits.
pub open spec fn digits_value(d: Seq<char>) -> nat
    decreases d.len(),
{
    if d.len() == 0 {
        0
    } else {
        digits_value(d.drop_last()) * 10 + ((d.last() as u32 - '0' as u32) as nat)
    }
}

/// An unsigned 64-bit number as `str::parse` reads one: an optional `+`,
/// then one or more ASCII digits, of a value that fits.
pub open spec fn parse_u64_spec(s: Seq<char>) -> Option<u64> {
    let d = strip_plus(s);
    if d.len() > 0 && all_digits(d) && digits_value(d) <= u64::MAX {
        Some(digits_value(d) as u64)
    } else {
        None
    }
}

/// The text after a leading `+`, if it has one.
pub open spec fn strip_plus(s: Seq<char>) -> Seq<char> {
    if s.len() > 0 && s[0] == '+' {
        s.drop_first()
    } else {
        s
    }
}

/// Whether every character is an ASCII digit.
pub open spec fn all_digits(d: Seq<char>) -> bool {
    forall|i: int| 0 <= i < d.len() ==> is_digit(#[trigger] d[i])
}

proof fn lemma_digits_value_grows(d: Seq<char>, k: int)
    requires
        0 <= k <= d.len(),
        forall|i: int| 0 <= i < d.len() ==> is_digit(#[trigger] d[i]),
    ensures
        digits_value(d.subrange(0, k)) <= digits_value(d),
    decreases d.len() - k,
{
    if k < d.len() {
        let s1 = d.subrange(0, k + 1);
        assert(s1.drop_last() =~= d.subrange(0, k));
        lemma_digits_value_grows(d, k + 1);
    } else {
        assert(d.subrange(0, k) =~= d);
    }
}

/// Reads an unsigned 64-bit number (see `parse_u64_spec`).
pub fn parse_u64(s: &str) -> (r: Option<u64>)
    ensures
        r == parse_u64_spec(s@),
{
    let v = chars_of(s);
    let start: usize = if v.len() > 0 && v[0] == '+' {
        1
    } else {
        0
    };
    let ghost d = strip_plus(s@);
    assert(d =~= v@.subrange(start as int, v@.len() as int));
    if start == v.len() {
        return None;
    }
    let mut value: u64 = 0;
    let mut i: usize = start;
    assert(d.subrange(0, 0) =~= Seq::<char>::empty());
    while i < v.len()
        invariant
            start <= i <= v@.len(),
            v@ == s@,
            d == strip_plus(s@),
            d =~= v@.subrange(start as int, v@.len() as int),
            forall|j: int| 0 <= j < i - start ==> is_digit(#[trigger] d[j]),
            value == digits_value(d.subrange(0, i - start)),
        decreases v@.len() - i,
    {
        let c = v[i];
        if !('0' <= c && c <= '9') {
            assert(d[i - start] == c);
            assert(!is_digit(d[i - start]));
            assert(!all_digits(d));
            return None;
        }
        assert(d[i - start] == c);
        let ghost sub = d.subrange(0, i - start + 1);
        assert(sub.drop_last() =~= d.subrange(0, i - start));
        let digit = (c as u32 - '0' as u32) as u64;
        let next = match value.checked_mul(10) {
            Some(x) => x.checked_add(digit),
            None => None,
        };
        match next {
            Some(x) => {
                value = x;
            },
            None => {
                proof {
                    assert(digits_value(sub) == value * 10 + digit);
                    assert(digits_value(sub) > u64::MAX);
                    if all_digits(d) {
                        lemma_digits_value_grows(d, i - start + 1);
                    }
                }
                return None;
            },
        }
        i = i + 1;
    }
    assert(d.subrange(0, v@.len() - start) =~= d);
    Some(value)
}

/// What a revision specifier names: `latest` the newest revision, else the
/// number it spells.
pub open spec fn rev_spec(spec: Seq<char>, max_rev: u64) -> Option<u64> {
    if spec == "latest"@ {
        Some(max_rev)
    } else {
        parse_u64_spec(spec)
    }
}

/// The revision a specifier names (see `rev_spec`).
pub fn parse_rev_spec(spec: &str, max_rev: u64) -> (r: Option<u64>)
    ensures
        r == rev_spec(spec@, max_rev),
{
    if str_eq(spec, "latest") {
        return Some(max_rev);
    }
    parse_u64(spec)
}


/// Whether two values are the same JSON: numbers by their text, objects
/// field by field in order, arrays item by item.
pub open spec fn json_same(a: JsonValue, b: JsonValue) -> bool
    decreases a, 1nat,
{
    match a {
        JsonValue::Null => b is Null,
        JsonValue::Bool(x) => b matches JsonValue::Bool(y) && x == y,
        JsonValue::Number(x) => b matches JsonValue::Number(y) && x.text@ == y.text@,
        JsonValue::String(x) => b matches JsonValue::String(y) && x@ == y@,
        JsonValue::Array(x) => match b {
            JsonValue::Array(y) => items_same(x@, y@),
            _ => false,
        },
        JsonValue::Object(x, _) => match b {
            JsonValue::Object(y, _) => fields_same(x@, y@),
            _ => false,
        },
    }
}

/// Whether two lists of values are the same, item by item.
pub open spec fn items_same(x: Seq<JsonValue>, y: Seq<JsonValue>) -> bool
    decreases x, 0nat,
{
    if x.len() == 0 {
        y.len() == 0
    } else {
        y.len() == x.len() && items_same(x.drop_last(), y.drop_last()) && json_same(x.last(), y.last())
    }
}

/// Whether two lists of fields are the same, field by field.
pub open spec fn fields_same(x: Seq<(String, JsonValue)>, y: Seq<(String, JsonValue)>) -> bool
    decreases x, 0nat,
{
    if x.len() == 0 {
        y.len() == 0
    } else {
        y.len() == x.len() && fields_same(x.drop_last(), y.drop_last()) && x.last().0@ == y.last().0@ && json_same(
            x.last().1,
            y.last().1,
        )
    }
}

/// What a JSON value denotes: its data without the encoder's text of an
/// object or the number's cached integer.
pub enum JsonData {
    Null,
    Bool(bool),
    Number(Seq<char>),
    Str(Seq<char>),
    List(Seq<JsonData>),
    Record(Seq<(Seq<char>, JsonData)>),
}

/// The data a JSON value denotes.
pub open spec fn json_data(v: JsonValue) -> JsonData
    decreases v, 1nat,
{
    match v {
        JsonValue::Null => JsonData::Null,
        JsonValue::Bool(b) => JsonData::Bool(b),
        JsonValue::Number(n) => JsonData::Number(n.text@),
        JsonValue::String(t) => JsonData::Str(t@),
        JsonValue::Array(x) => JsonData::List(items_data(x@)),
        JsonValue::Object(x, _) => JsonData::Record(fields_data(x@)),
    }
}

/// The data of a list of values, item by item.
pub open spec fn items_data(x: Seq<JsonValue>) -> Seq<JsonData>
    decreases x, 0nat,
{
    if x.len() == 0 {
        Seq::empty()
    } else {
        items_data(x.drop_last()).push(json_data(x.last()))
    }
}

/// The data of a list of fields: each key with its value's data.
pub open spec fn fields_data(x: Seq<(String, JsonValue)>) -> Seq<(Seq<char>, JsonData)>
    decreases x, 0nat,
{
    if x.len() == 0 {
        Seq::empty()
    } else {
        fields_data(x.drop_last()).push((x.last().0@, json_data(x.last().1)))
    }
}

/// Two values are the same JSON exactly when they denote the same data:
/// same kind, equal booleans, numbers with the same text, equal strings,
/// and arrays and objects equal item by item and field by field.
pub proof fn lemma_json_same_is_equal_data(a: JsonValue, b: JsonValue)
    ensures
        json_same(a, b) <==> json_data(a) == json_data(b),
    decreases a, 1nat,
{
    match a {
        JsonValue::Array(x) => match b {
            JsonValue::Array(y) => {
                assert(decreases_to!(a => x));
                lemma_items_same_is_equal_data(x@, y@);
            },
            _ => {},
        },
        JsonValue::Object(x, _) => match b {
            JsonValue::Object(y, _) => {
                assert(decreases_to!(a => x));
                lemma_fields_same_is_equal_data(x@, y@);
            },
            _ => {},
        },
        _ => {},
    }
}

/// Two lists of values are the same item by item exactly when their data
/// are equal.
pub proof fn lemma_items_same_is_equal_data(x: Seq<JsonValue>, y: Seq<JsonValue>)
    ensures
        items_same(x, y) <==> items_data(x) == items_data(y),
    decreases x, 0nat,
{
    lemma_items_data_len(x);
    lemma_items_data_len(y);
    if x.len() > 0 && y.len() == x.len() {
        lemma_items_same_is_equal_data(x.drop_last(), y.drop_last());
        lemma_json_same_is_equal_data(x.last(), y.last());
        let dx = items_data(x);
        let dy = items_data(y);
        if dx == dy {
            assert(dx.drop_last() =~= items_data(x.drop_last()));
            assert(dy.drop_last() =~= items_data(y.drop_last()));
            assert(dx.last() == json_data(x.last()));
            assert(dy.last() == json_data(y.last()));
        }
    } else if x.len() == 0 && y.len() > 0 {
        assert(items_data(y).len() > 0);
    }
}

/// Two lists of fields are the same field by field exactly when their keys
/// and data are equal.
pub proof fn lemma_fields_same_is_equal_data(x: Seq<(String, JsonValue)>, y: Seq<(String, JsonValue)>)
    ensures
        fields_same(x, y) <==> fields_data(x) == fields_data(y),
    decreases x, 0nat,
{
    lemma_fields_data_len(x);
    lemma_fields_data_len(y);
    if x.len() > 0 && y.len() == x.len() {
        assert(decreases_to!(x => x.last()));
        lemma_fields_same_is_equal_data(x.drop_last(), y.drop_last());
        lemma_json_same_is_equal_data(x.last().1, y.last().1);
        let dx = fields_data(x);
        let dy = fields_data(y);
        if dx == dy {
            assert(dx.drop_last() =~= fields_data(x.drop_last()));
            assert(dy.drop_last() =~= fields_data(y.drop_last()));
            assert(dx.last() == (x.last().0@, json_data(x.last().1)));
            assert(dy.last() == (y.last().0@, json_data(y.last().1)));
        }
    } else if x.len() == 0 && y.len() > 0 {
        assert(fields_data(y).len() > 0);
    }
}

proof fn lemma_items_data_len(x: Seq<JsonValue>)
    ensures
        items_data(x).len() == x.len(),
    decreases x.len(),
{
    if x.len() > 0 {
        lemma_items_data_len(x.drop_last());
    }
}

proof fn lemma_fields_data_len(x: Seq<(String, JsonValue)>)
    ensures
        fields_data(x).len() == x.len(),
    decreases x.len(),
{
    if x.len() > 0 {
        lemma_fields_data_len(x.drop_last());
    }
}

/// Whether two values are the same JSON (see `json_same`).
pub fn json_eq(a: &JsonValue, b: &JsonValue) -> (r: bool)
    ensures
        r == json_same(*a, *b),
    decreases *a, 1nat,
{
    match a {
        JsonValue::Null => match b {
            JsonValue::Null => true,
            _ => false,
        },
        JsonValue::Bool(x) => match b {
            JsonValue::Bool(y) => *x == *y,
            _ => false,
        },
        JsonValue::Number(x) => match b {
            JsonValue::Number(y) => str_eq(x.text.as_str(), y.text.as_str()),
            _ => false,
        },
        JsonValue::String(x) => match b {
            JsonValue::String(y) => str_eq(x.as_str(), y.as_str()),
            _ => false,
        },
        JsonValue::Array(x) => match b {
            JsonValue::Array(y) => {
                proof {
                    assert(decreases_to!(*a => x));
                }
                items_eq(x, y)
            },
            _ => false,
        },
        JsonValue::Object(x, _) => match b {
            JsonValue::Object(y, _) => {
                proof {
                    assert(decreases_to!(*a => x));
                }
                fields_eq(x, y)
            },
            _ => false,
        },
    }
}

fn items_eq(x: &Vec<JsonValue>, y: &Vec<JsonValue>) -> (r: bool)
    ensures
        r == items_same(x@, y@),
    decreases x@, 0nat,
{
    if x.len() != y.len() {
        proof {
            lemma_items_same_len(x@, y@);
        }
        return false;
    }
    let n = x.len();
    let mut i: usize = 0;
    assert(items_same(x@.subrange(0, 0), y@.subrange(0, 0)));
    while i < n
        invariant
            n == x@.len() == y@.len(),
            i <= n,
            items_same(x@.subrange(0, i as int), y@.subrange(0, i as int)),
        decreases n - i,
    {
        proof {
            assert(decreases_to!(x@ => x@[i as int]));
        }
        if !json_eq(&x[i], &y[i]) {
            proof {
                if items_same(x@, y@) {
                    lemma_items_same_prefix(x@, y@, i + 1);
                    let xs = x@.subrange(0, i + 1);
                    assert(xs.last() == x@[i as int]);
                    assert(y@.subrange(0, i + 1).last() == y@[i as int]);
                }
            }
            return false;
        }
        proof {
            let xs = x@.subrange(0, i + 1);
            let ys = y@.subrange(0, i + 1);
            assert(xs.drop_last() =~= x@.subrange(0, i as int));
            assert(ys.drop_last() =~= y@.subrange(0, i as int));
        }
        i = i + 1;
    }
    assert(x@.subrange(0, n as int) =~= x@);
    assert(y@.subrange(0, n as int) =~= y@);
    true
}

fn fields_eq(x: &Vec<(String, JsonValue)>, y: &Vec<(String, JsonValue)>) -> (r: bool)
    ensures
        r == fields_same(x@, y@),
    decreases x@, 0nat,
{
    if x.len() != y.len() {
        proof {
            lemma_fields_same_len(x@, y@);
        }
        return false;
    }
    let n = x.len();
    let mut i: usize = 0;
    assert(fields_same(x@.subrange(0, 0), y@.subrange(0, 0)));
    while i < n
        invariant
            n == x@.len() == y@.len(),
            i <= n,
            fields_same(x@.subrange(0, i as int), y@.subrange(0, i as int)),
        decreases n - i,
    {
        proof {
            assert(decreases_to!(x@ => x@[i as int]));
            assert(decreases_to!(x@[i as int] => x@[i as int].1));
        }
        let same_key = str_eq(x[i].0.as_str(), y[i].0.as_str());
        if !same_key || !json_eq(&x[i].1, &y[i].1) {
            proof {
                if fields_same(x@, y@) {
                    lemma_fields_same_prefix(x@, y@, i + 1);
                    assert(x@.subrange(0, i + 1).last() == x@[i as int]);
                    assert(y@.subrange(0, i + 1).last() == y@[i as int]);
                }
            }
            return false;
        }
        proof {
            let xs = x@.subrange(0, i + 1);
            let ys = y@.subrange(0, i + 1);
            assert(xs.drop_last() =~= x@.subrange(0, i as int));
            assert(ys.drop_last() =~= y@.subrange(0, i as int));
        }
        i = i + 1;
    }
    assert(x@.subrange(0, n as int) =~= x@);
    assert(y@.subrange(0, n as int) =~= y@);
    true
}

proof fn lemma_items_same_len(x: Seq<JsonValue>, y: Seq<JsonValue>)
    ensures
        items_same(x, y) ==> x.len() == y.len(),
{
}

proof fn lemma_fields_same_len(x: Seq<(String, JsonValue)>, y: Seq<(String, JsonValue)>)
    ensures
        fields_same(x, y) ==> x.len() == y.len(),
{
}

/// Lists that are the same have prefixes that are the same.
proof fn lemma_items_same_prefix(x: Seq<JsonValue>, y: Seq<JsonValue>, k: int)
    requires
        0 <= k <= x.len(),
        x.len() == y.len(),
        items_same(x, y),
    ensures
        items_same(x.subrange(0, k), y.subrange(0, k)),
    decreases x.len(),
{
    if k < x.len() {
        lemma_items_same_prefix(x.drop_last(), y.drop_last(), k);
        assert(x.drop_last().subrange(0, k) =~= x.subrange(0, k));
        assert(y.drop_last().subrange(0, k) =~= y.subrange(0, k));
    } else {
        assert(x.subrange(0, k) =~= x);
        assert(y.subrange(0, k) =~= y);
    }
}

proof fn lemma_fields_same_prefix(x: Seq<(String, JsonValue)>, y: Seq<(String, JsonValue)>, k: int)
    requires
        0 <= k <= x.len(),
        x.len() == y.len(),
        fields_same(x, y),
    ensures
        fields_same(x.subrange(0, k), y.subrange(0, k)),
    decreases x.len(),
{
    if k < x.len() {
        lemma_fields_same_prefix(x.drop_last(), y.drop_last(), k);
        assert(x.drop_last().subrange(0, k) =~= x.subrange(0, k));
        assert(y.drop_last().subrange(0, k) =~= y.subrange(0, k));
    } else {
        assert(x.subrange(0, k) =~= x);
        assert(y.subrange(0, k) =~= y);
    }
}

/// Where a field key first occurs among fields (their number when it does
/// not).
fn key_index(m: &Vec<(String, JsonValue)>, key: &str) -> (r: usize)
    ensures
        r == first_index(m@, key@),
{
    let mut i: usize = 0;
    assert(m@.subrange(0, m@.len() as int) =~= m@);
    while i < m.len()
        invariant
            i <= m@.len(),
            first_index(m@, key@) == i + first_index(m@.subrange(i as int, m@.len() as int), key@),
        decreases m@.len() - i,
    {
        let ghost rest = m@.subrange(i as int, m@.len() as int);
        assert(rest[0] == m@[i as int]);
        if str_eq(m[i].0.as_str(), key) {
            return i;
        }
        assert(rest.drop_first() =~= m@.subrange(i + 1, m@.len() as int));
        i = i + 1;
    }
    assert(m@.subrange(i as int, m@.len() as int) =~= Seq::<(String, JsonValue)>::empty());
    i
}

/// The places of the fields of `to` whose key `from` lacks, among the
/// first `n`.
pub open spec fn added_upto(from: Seq<(String, JsonValue)>, to: Seq<(String, JsonValue)>, n: int) -> Seq<usize>
    decreases n,
{
    if n <= 0 {
        Seq::empty()
    } else {
        let prev = added_upto(from, to, n - 1);
        if first_index(from, to[n - 1].0@) == from.len() {
            prev.push((n - 1) as usize)
        } else {
            prev
        }
    }
}

/// The fields of `to` whose key `from` has with another value, among the
/// first `n`: the place of the key in `from`, then in `to`.
pub open spec fn changed_upto(from: Seq<(String, JsonValue)>, to: Seq<(String, JsonValue)>, n: int) -> Seq<(usize, usize)>
    decreases n,
{
    if n <= 0 {
        Seq::empty()
    } else {
        let prev = changed_upto(from, to, n - 1);
        let k = first_index(from, to[n - 1].0@);
        if k < from.len() && !json_same(from[k as int].1, to[n - 1].1) {
            prev.push((k as usize, (n - 1) as usize))
        } else {
            prev
        }
    }
}

/// How the fields of one revision became those of another: the places of
/// the fields added (in the later revision), removed (in the earlier one),
/// and changed (in both).
pub struct FieldDiff {
    pub added: Vec<usize>,
    pub removed: Vec<usize>,
    pub changed: Vec<(usize, usize)>,
}

/// The difference of two revisions' fields: fields of `to` that `from`
/// lacks, fields of `from` that `to` lacks, and fields of `to` whose value
/// in `from` differs, each in field order.
pub fn diff_fields(from: &Vec<(String, JsonValue)>, to: &Vec<(String, JsonValue)>) -> (r: FieldDiff)
    ensures
        r.added@ == added_upto(from@, to@, to@.len() as int),
        r.changed@ == changed_upto(from@, to@, to@.len() as int),
        r.removed@ == added_upto(to@, from@, from@.len() as int),
{
    let mut added: Vec<usize> = Vec::new();
    let mut changed: Vec<(usize, usize)> = Vec::new();
    let mut i: usize = 0;
    while i < to.len()
        invariant
            i <= to@.len(),
            added@ == added_upto(from@, to@, i as int),
            changed@ == changed_upto(from@, to@, i as int),
        decreases to@.len() - i,
    {
        let k = key_index(from, to[i].0.as_str());
        if k == from.len() {
            added.push(i);
        } else {
            proof {
                lemma_first_index_bound(from@, to@[i as int].0@);
            }
            if !json_eq(&from[k].1, &to[i].1) {
                changed.push((k, i));
            }
        }
        i = i + 1;
    }
    let mut removed: Vec<usize> = Vec::new();
    let mut j: usize = 0;
    while j < from.len()
        invariant
            j <= from@.len(),
            removed@ == added_upto(to@, from@, j as int),
        decreases from@.len() - j,
    {
        let k = key_index(to, from[j].0.as_str());
        if k == to.len() {
            removed.push(j);
        }
        j = j + 1;
    }
    FieldDiff { added, removed, changed }
}

proof fn lemma_first_index_bound(m: Seq<(String, JsonValue)>, key: Seq<char>)
    ensures
        first_index(m, key) <= m.len(),
    decreases m.len(),
{
    if m.len() > 0 && m[0].0@ != key {
        lemma_first_index_bound(m.drop_first(), key);
    }
}

/// One revision of a ticket: its number and its fields.
pub struct Revision {
    pub rev: u64,
    pub fields: Vec<(String, JsonValue)>,
}

/// Why two revisions could not be compared.
pub enum DiffError {
    /// The ticket has no recorded revision.
    NoHistory,
    /// A specifier names no revision number.
    InvalidRevision(String),
    /// No revision has the number a specifier names.
    RevisionNotFound(u64),
}

/// The comparison of two revisions: their numbers, their places in the
/// history, and the difference of their fields.
pub struct RevisionDiff {
    pub from_rev: u64,
    pub to_rev: u64,
    pub from_index: usize,
    pub to_index: usize,
    pub diff: FieldDiff,
}

/// The place of the first revision with a number (their count when none
/// has it).
pub open spec fn rev_index(revs: Seq<Revision>, n: u64) -> nat
    decreases revs.len(),
{
    if revs.len() == 0 {
        0
    } else if revs[0].rev == n {
        0
    } else {
        1 + rev_index(revs.drop_first(), n)
    }
}

proof fn lemma_rev_index_bound(revs: Seq<Revision>, n: u64)
    ensures
        rev_index(revs, n) <= revs.len(),
        rev_index(revs, n) < revs.len() ==> revs[rev_index(revs, n) as int].rev == n,
    decreases revs.len(),
{
    if revs.len() > 0 && revs[0].rev != n {
        lemma_rev_index_bound(revs.drop_first(), n);
    }
}

fn find_rev(revs: &[Revision], n: u64) -> (r: usize)
    ensures
        r == rev_index(revs@, n),
{
    let mut i: usize = 0;
    assert(revs@.subrange(0, revs@.len() as int) =~= revs@);
    while i < revs.len()
        invariant
            i <= revs@.len(),
            rev_index(revs@, n) == i + rev_index(revs@.subrange(i as int, revs@.len() as int), n),
        decreases revs@.len() - i,
    {
        let ghost rest = revs@.subrange(i as int, revs@.len() as int);
        assert(rest[0] == revs@[i as int]);
        if revs[i].rev == n {
            return i;
        }
        assert(rest.drop_first() =~= revs@.subrange(i + 1, revs@.len() as int));
        i = i + 1;
    }
    assert(revs@.subrange(i as int, revs@.len() as int) =~= Seq::<Revision>::empty());
    i
}

/// Compares two revisions of a ticket named by specifiers (see `rev_spec`;
/// `latest` is the number of the last revision). Fails when there is no
/// history, when a specifier names no number (the earlier one checked
/// first), or when no revision has the number named (likewise).
pub fn diff_revisions(revisions: &[Revision], from_spec: &str, to_spec: &str) -> (r: Result<RevisionDiff, DiffError>)
    ensures
        revisions@.len() == 0 ==> r matches Err(DiffError::NoHistory),
        revisions@.len() > 0 ==> {
            let max = revisions@.last().rev;
            match (rev_spec(from_spec@, max), rev_spec(to_spec@, max)) {
                (None, _) => r matches Err(DiffError::InvalidRevision(t)) && t@ == from_spec@,
                (Some(_), None) => r matches Err(DiffError::InvalidRevision(t)) && t@ == to_spec@,
                (Some(a), Some(b)) => if rev_index(revisions@, a) == revisions@.len() {
                    r matches Err(DiffError::RevisionNotFound(n)) && n == a
                } else if rev_index(revisions@, b) == revisions@.len() {
                    r matches Err(DiffError::RevisionNotFound(n)) && n == b
                } else {
                    r matches Ok(d) && d.from_rev == a && d.to_rev == b && d.from_index == rev_index(revisions@, a)
                        && d.to_index == rev_index(revisions@, b) && d.diff.added@ == added_upto(
                        revisions@[d.from_index as int].fields@,
                        revisions@[d.to_index as int].fields@,
                        revisions@[d.to_index as int].fields@.len() as int,
                    ) && d.diff.changed@ == changed_upto(
                        revisions@[d.from_index as int].fields@,
                        revisions@[d.to_index as int].fields@,
                        revisions@[d.to_index as int].fields@.len() as int,
                    ) && d.diff.removed@ == added_upto(
                        revisions@[d.to_index as int].fields@,
                        revisions@[d.from_index as int].fields@,
                        revisions@[d.from_index as int].fields@.len() as int,
                    )
                },
            }
        },
{
    if revisions.len() == 0 {
        return Err(DiffError::NoHistory);
    }
    let max_rev = revisions[revisions.len() - 1].rev;
    let from_rev = match parse_rev_spec(from_spec, max_rev) {
        Some(n) => n,
        None => return Err(DiffError::InvalidRevision(from_spec.to_string())),
    };
    let to_rev = match parse_rev_spec(to_spec, max_rev) {
        Some(n) => n,
        None => return Err(DiffError::InvalidRevision(to_spec.to_string())),
    };
    let from_index = find_rev(revisions, from_rev);
    if from_index == revisions.len() {
        return Err(DiffError::RevisionNotFound(from_rev));
    }
    let to_index = find_rev(revisions, to_rev);
    if to_index == revisions.len() {
        return Err(DiffError::RevisionNotFound(to_rev));
    }
    proof {
        lemma_rev_index_bound(revisions@, from_rev);
        lemma_rev_index_bound(revisions@, to_rev);
    }
    let diff = diff_fields(&revisions[from_index].fields, &revisions[to_index].fields);
    Ok(RevisionDiff { from_rev, to_rev, from_index, to_index, diff })
}
} // verus!
