//! Human-readable rendering of command payloads: scalar fields as
//! `key: value` lines, nested objects and arrays of objects as indented
//! `[key]` sections, and the workflow tree, frontier and health reports.
use vstd::prelude::*;
use crate::text::{chars_of, string_of, str_eq, decimal, push_decimal};
use crate::catalog::{is_whitespace, trim_end_spec};
use chrono::{Datelike, Timelike};

verus! {

/// A JSON number: its text as the payload encoder writes it, and its value
/// when it is a non-negative integer that fits in `u64`.
pub struct JsonNumber {
    pub text: String,
    pub as_u64: Option<u64>,
}

/// A JSON payload value. An object keeps its fields in the encoder's
/// iteration order, together with its compact JSON text.
pub enum JsonValue {
    Null,
    Bool(bool),
    Number(JsonNumber),
    String(String),
    Array(Vec<JsonValue>),
    Object(Vec<(String, JsonValue)>, String),
}

/// The field `key` of an object's fields: the first one with that key.
pub open spec fn field_spec(m: Seq<(String, JsonValue)>, key: Seq<char>) -> Option<JsonValue>
    decreases m.len(),
{
    if m.len() == 0 {
        None
    } else if m[0].0@ == key {
        Some(m[0].1)
    } else {
        field_spec(m.drop_first(), key)
    }
}

/// The field `key` of an object.
pub fn get_field<'a>(m: &'a Vec<(String, JsonValue)>, key: &str) -> (r: Option<&'a JsonValue>)
    ensures
        match r {
            Some(v) => field_spec(m@, key@) == Some(*v),
            None => field_spec(m@, key@) is None,
        },
{
    let mut i: usize = 0;
    assert(m@.subrange(0, m@.len() as int) =~= m@);
    while i < m.len()
        invariant
            i <= m@.len(),
            field_spec(m@, key@) == field_spec(m@.subrange(i as int, m@.len() as int), key@),
        decreases m@.len() - i,
    {
        let ghost rest = m@.subrange(i as int, m@.len() as int);
        assert(rest[0] == m@[i as int]);
        if str_eq(m[i].0.as_str(), key) {
            return Some(&m[i].1);
        }
        assert(rest.drop_first() =~= m@.subrange(i + 1, m@.len() as int));
        i = i + 1;
    }
    assert(m@.subrange(i as int, m@.len() as int).len() == 0);
    None
}

/// The text of a string value, if the value is a string.
pub open spec fn as_str_spec(v: Option<JsonValue>) -> Option<Seq<char>> {
    match v {
        Some(JsonValue::String(s)) => Some(s@),
        _ => None,
    }
}

/// The unsigned value of a number, if the value is one.
pub open spec fn as_u64_spec(v: Option<JsonValue>) -> Option<u64> {
    match v {
        Some(JsonValue::Number(n)) => n.as_u64,
        _ => None,
    }
}

/// The text of field `key` when it is a string, else `default`.
pub open spec fn str_or(m: Seq<(String, JsonValue)>, key: Seq<char>, default: Seq<char>) -> Seq<char> {
    match as_str_spec(field_spec(m, key)) {
        Some(s) => s,
        None => default,
    }
}

/// The value of field `key` when it is an unsigned number, else 0.
pub open spec fn u64_or_zero(m: Seq<(String, JsonValue)>, key: Seq<char>) -> nat {
    match as_u64_spec(field_spec(m, key)) {
        Some(n) => n as nat,
        None => 0,
    }
}

/// Appends the string field `key`, or `default` when it is missing or not
/// a string.
fn push_str_field(out: &mut String, m: &Vec<(String, JsonValue)>, key: &str, default: &str)
    ensures
        final(out)@ == old(out)@ + str_or(m@, key@, default@),
{
    match get_field(m, key) {
        Some(JsonValue::String(s)) => out.append(s.as_str()),
        _ => out.append(default),
    }
}

/// Appends the unsigned field `key` in decimal, or 0.
fn push_u64_field(out: &mut String, m: &Vec<(String, JsonValue)>, key: &str)
    ensures
        final(out)@ == old(out)@ + decimal(u64_or_zero(m@, key@)),
{
    match get_field(m, key) {
        Some(JsonValue::Number(n)) => match n.as_u64 {
            Some(x) => push_decimal(out, x),
            None => push_decimal(out, 0),
        },
        _ => push_decimal(out, 0),
    }
}

/// Whether a value is shown as a section of its own: an object, or an array
/// holding an object or an array.
pub open spec fn is_section_spec(v: JsonValue) -> bool {
    match v {
        JsonValue::Object(..) => true,
        JsonValue::Array(a) => exists|i: int| 0 <= i < a@.len() && (a@[i] is Object || a@[i] is Array),
        _ => false,
    }
}

/// Whether a value is shown as a section of its own.
fn is_section(v: &JsonValue) -> (r: bool)
    ensures
        r == is_section_spec(*v),
{
    match v {
        JsonValue::Object(..) => true,
        JsonValue::Array(a) => {
            let mut i: usize = 0;
            while i < a.len()
                invariant
                    i <= a@.len(),
                    *v == JsonValue::Array(*a),
                    forall|q: int| 0 <= q < i ==> !(a@[q] is Object || a@[q] is Array),
                decreases a@.len() - i,
            {
                match &a[i] {
                    JsonValue::Object(..) => return true,
                    JsonValue::Array(_) => return true,
                    _ => {},
                }
                i = i + 1;
            }
            false
        },
        _ => false,
    }
}

/// A value on one line: `-` for null, `true`/`false`, the number's text,
/// the string itself, array elements joined by `, `, an object's compact
/// JSON.
pub open spec fn scalar_spec(v: JsonValue) -> Seq<char>
    decreases v,
{
    match v {
        JsonValue::Null => "-"@,
        JsonValue::Bool(b) => if b {
            "true"@
        } else {
            "false"@
        },
        JsonValue::Number(n) => n.text@,
        JsonValue::String(s) => s@,
        JsonValue::Array(a) => join_spec(a@),
        JsonValue::Object(_, c) => c@,
    }
}

/// Values on one line, separated by `, `.
pub open spec fn join_spec(s: Seq<JsonValue>) -> Seq<char>
    decreases s,
{
    if s.len() == 0 {
        Seq::empty()
    } else if s.len() == 1 {
        scalar_spec(s[0])
    } else {
        join_spec(s.drop_last()) + ", "@ + scalar_spec(s.last())
    }
}

/// Appends a value on one line (see `scalar_spec`).
fn push_scalar(out: &mut String, v: &JsonValue)
    ensures
        final(out)@ == old(out)@ + scalar_spec(*v),
    decreases v,
{
    match v {
        JsonValue::Null => out.append("-"),
        JsonValue::Bool(b) => if *b {
            out.append("true")
        } else {
            out.append("false")
        },
        JsonValue::Number(n) => out.append(n.text.as_str()),
        JsonValue::String(s) => out.append(s.as_str()),
        JsonValue::Array(a) => {
            let ghost start = out@;
            let mut i: usize = 0;
            assert(a@.subrange(0, 0) =~= Seq::<JsonValue>::empty());
            while i < a.len()
                invariant
                    i <= a@.len(),
                    *v == JsonValue::Array(*a),
                    out@ == start + join_spec(a@.subrange(0, i as int)),
                decreases a@.len() - i,
            {
                let ghost sub = a@.subrange(0, i + 1);
                assert(sub.drop_last() =~= a@.subrange(0, i as int));
                assert(sub.last() == a@[i as int]);
                if i > 0 {
                    out.append(", ");
                } else {
                    assert(sub =~= seq![a@[0]]);
                }
                proof {
                    assert(decreases_to!(*v => (*v)->Array_0));
                    assert((*v)->Array_0 == *a);
                    assert(decreases_to!(*a => a@));
                    assert(decreases_to!(a@ => a@[i as int]));
                    assert(decreases_to!(*v => a@[i as int]));
                }
                push_scalar(out, &a[i]);
                assert(out@ =~= start + join_spec(sub));
                i = i + 1;
            }
            assert(a@.subrange(0, a@.len() as int) =~= a@);
        },
        JsonValue::Object(_, c) => out.append(c.as_str()),
    }
}

/// A value on one line (`format_scalar`).
pub fn format_scalar(v: &JsonValue) -> (r: String)
    ensures
        r@ == scalar_spec(*v),
{
    let mut out = String::new();
    push_scalar(&mut out, v);
    assert(out@ =~= scalar_spec(*v));
    out
}

/// A `key: value` line under the given indentation.
pub open spec fn line_spec(ind: Seq<char>, key: Seq<char>, v: JsonValue) -> Seq<char> {
    ind + key + ": "@ + scalar_spec(v) + "\n"@
}

/// A section: an object as `[key]` and its fields one level deeper, an
/// array as `[key] (count)` and its items one level deeper, any other value
/// as a `key: value` line.
pub open spec fn section_spec(key: Seq<char>, v: JsonValue, ind: Seq<char>) -> Seq<char>
    decreases v, 0nat,
{
    match v {
        JsonValue::Object(m, _) => "\n"@ + ind + "["@ + key + "]\n"@ + fields_spec(m@, ind + "  "@),
        JsonValue::Array(a) => "\n"@ + ind + "["@ + key + "] ("@ + decimal(a@.len()) + ")\n"@ + items_spec(
            a@,
            ind + "  "@,
        ),
        _ => line_spec(ind, key, v),
    }
}

/// The `key: value` lines of an object's fields that are not sections, in
/// order.
pub open spec fn scalar_lines_spec(m: Seq<(String, JsonValue)>, ind: Seq<char>) -> Seq<char>
    decreases m.len(),
{
    if m.len() == 0 {
        Seq::empty()
    } else {
        let prev = scalar_lines_spec(m.drop_last(), ind);
        if is_section_spec(m.last().1) {
            prev
        } else {
            prev + line_spec(ind, m.last().0@, m.last().1)
        }
    }
}

/// The sections of an object's fields that are sections, in order.
pub open spec fn section_blocks_spec(m: Seq<(String, JsonValue)>, ind: Seq<char>) -> Seq<char>
    decreases m, 0nat,
{
    if m.len() == 0 {
        Seq::empty()
    } else {
        let prev = section_blocks_spec(m.drop_last(), ind);
        if is_section_spec(m.last().1) {
            prev + section_spec(m.last().0@, m.last().1, ind)
        } else {
            prev
        }
    }
}

/// An object's fields: its scalar lines first, then its sections.
pub open spec fn fields_spec(m: Seq<(String, JsonValue)>, ind: Seq<char>) -> Seq<char>
    decreases m, 1nat,
{
    scalar_lines_spec(m, ind) + section_blocks_spec(m, ind)
}

/// An array's items, separated by blank lines: objects as their fields,
/// other values on one line.
pub open spec fn items_spec(a: Seq<JsonValue>, ind: Seq<char>) -> Seq<char>
    decreases a, 0nat,
{
    if a.len() == 0 {
        Seq::empty()
    } else {
        let prev = items_spec(a.drop_last(), ind);
        let sep = if a.len() > 1 {
            "\n"@
        } else {
            Seq::empty()
        };
        match a.last() {
            JsonValue::Object(m, _) => prev + sep + fields_spec(m@, ind),
            v => prev + sep + ind + scalar_spec(v) + "\n"@,
        }
    }
}

fn push_line(out: &mut String, ind: &str, key: &str, v: &JsonValue)
    ensures
        final(out)@ == old(out)@ + line_spec(ind@, key@, *v),
{
    out.append(ind);
    out.append(key);
    out.append(": ");
    push_scalar(out, v);
    out.append("\n");
    assert(out@ =~= old(out)@ + line_spec(ind@, key@, *v));
}

fn deeper(ind: &str) -> (r: String)
    ensures
        r@ == ind@ + "  "@,
{
    let mut s = ind.to_owned();
    s.append("  ");
    s
}

/// Appends a section (see `section_spec`).
fn write_section(out: &mut String, key: &str, v: &JsonValue, ind: &str)
    ensures
        final(out)@ == old(out)@ + section_spec(key@, *v, ind@),
    decreases v, 0nat,
{
    match v {
        JsonValue::Object(m, _) => {
            out.append("\n");
            out.append(ind);
            out.append("[");
            out.append(key);
            out.append("]\n");
            let child = deeper(ind);
            write_object_fields(out, m, child.as_str());
        },
        JsonValue::Array(a) => {
            out.append("\n");
            out.append(ind);
            out.append("[");
            out.append(key);
            out.append("] (");
            push_decimal(out, a.len() as u64);
            out.append(")\n");
            let child = deeper(ind);
            write_array_items(out, a, child.as_str());
        },
        _ => push_line(out, ind, key, v),
    }
    assert(out@ =~= old(out)@ + section_spec(key@, *v, ind@));
}

/// Appends an object's fields (see `fields_spec`).
fn write_object_fields(out: &mut String, m: &Vec<(String, JsonValue)>, ind: &str)
    ensures
        final(out)@ == old(out)@ + fields_spec(m@, ind@),
    decreases m@, 1nat,
{
    let ghost start = out@;
    let mut i: usize = 0;
    assert(m@.subrange(0, 0) =~= Seq::<(String, JsonValue)>::empty());
    while i < m.len()
        invariant
            i <= m@.len(),
            out@ == start + scalar_lines_spec(m@.subrange(0, i as int), ind@),
        decreases m@.len() - i,
    {
        let ghost sub = m@.subrange(0, i + 1);
        assert(sub.drop_last() =~= m@.subrange(0, i as int));
        assert(sub.last() == m@[i as int]);
        if !is_section(&m[i].1) {
            push_line(out, ind, m[i].0.as_str(), &m[i].1);
        }
        assert(out@ =~= start + scalar_lines_spec(sub, ind@));
        i = i + 1;
    }
    assert(m@.subrange(0, m@.len() as int) =~= m@);
    let ghost mid = out@;
    let mut j: usize = 0;
    while j < m.len()
        invariant
            j <= m@.len(),
            out@ == mid + section_blocks_spec(m@.subrange(0, j as int), ind@),
        decreases m@.len() - j,
    {
        let ghost sub = m@.subrange(0, j + 1);
        assert(sub.drop_last() =~= m@.subrange(0, j as int));
        assert(sub.last() == m@[j as int]);
        if is_section(&m[j].1) {
            write_section(out, m[j].0.as_str(), &m[j].1, ind);
        }
        assert(out@ =~= mid + section_blocks_spec(sub, ind@));
        j = j + 1;
    }
    assert(out@ =~= start + fields_spec(m@, ind@));
}

/// Appends an array's items (see `items_spec`).
fn write_array_items(out: &mut String, a: &Vec<JsonValue>, ind: &str)
    ensures
        final(out)@ == old(out)@ + items_spec(a@, ind@),
    decreases a@, 0nat,
{
    let ghost start = out@;
    let mut i: usize = 0;
    assert(a@.subrange(0, 0) =~= Seq::<JsonValue>::empty());
    while i < a.len()
        invariant
            i <= a@.len(),
            out@ == start + items_spec(a@.subrange(0, i as int), ind@),
        decreases a@.len() - i,
    {
        let ghost sub = a@.subrange(0, i + 1);
        assert(sub.drop_last() =~= a@.subrange(0, i as int));
        assert(sub.last() == a@[i as int]);
        if i > 0 {
            out.append("\n");
        }
        match &a[i] {
            JsonValue::Object(m, _) => write_object_fields(out, m, ind),
            item => {
                out.append(ind);
                push_scalar(out, item);
                out.append("\n");
            },
        }
        assert(out@ =~= start + items_spec(sub, ind@));
        i = i + 1;
    }
    assert(a@.subrange(0, a@.len() as int) =~= a@);
}


/// `s` without trailing white space, then one line break.
pub open spec fn finish_spec(s: Seq<char>) -> Seq<char> {
    trim_end_spec(s) + "\n"@
}

/// Drops trailing white space and ends the text with one line break.
fn finish(s: String) -> (r: String)
    ensures
        r@ == finish_spec(s@),
{
    let v = chars_of(s.as_str());
    let mut b: usize = v.len();
    assert(v@.subrange(0, v@.len() as int) =~= v@);
    while b > 0 && is_whitespace(v[b - 1])
        invariant
            b <= v@.len(),
            v@ == s@,
            trim_end_spec(v@.subrange(0, b as int)) == trim_end_spec(s@),
        decreases b,
    {
        assert(v@.subrange(0, b as int).drop_last() =~= v@.subrange(0, b - 1));
        b = b - 1;
    }
    let mut out: Vec<char> = Vec::new();
    let mut k: usize = 0;
    while k < b
        invariant
            k <= b <= v@.len(),
            out@ == v@.subrange(0, k as int),
        decreases b - k,
    {
        out.push(v[k]);
        assert(v@.subrange(0, k + 1) =~= v@.subrange(0, k as int).push(v@[k as int]));
        k = k + 1;
    }
    out.push('\n');
    let r = string_of(out.as_slice());
    proof {
        reveal_strlit("\n");
    }
    assert(r@ =~= finish_spec(s@));
    r
}

/// The fields of an object, none for another value.
pub open spec fn node_fields(v: JsonValue) -> Seq<(String, JsonValue)> {
    match v {
        JsonValue::Object(m, _) => m@,
        _ => Seq::empty(),
    }
}

/// The header line of a report: the command and the status, `?` for a
/// missing one.
pub open spec fn header_spec(m: Seq<(String, JsonValue)>) -> Seq<char> {
    str_or(m, "command"@, "?"@) + " "@ + str_or(m, "status"@, "?"@) + "\n"@
}

fn push_header(out: &mut String, m: &Vec<(String, JsonValue)>)
    ensures
        final(out)@ == old(out)@ + header_spec(m@),
{
    push_str_field(out, m, "command", "?");
    out.append(" ");
    push_str_field(out, m, "status", "?");
    out.append("\n");
    assert(out@ =~= old(out)@ + header_spec(m@));
}

/// The fields whose key is not among the excluded ones.
pub open spec fn kept_fields(m: Seq<(String, JsonValue)>, excluded: Seq<Seq<char>>) -> Seq<(String, JsonValue)> {
    m.filter(|f: (String, JsonValue)| !excluded.contains(f.0@))
}

fn key_excluded(key: &str, excluded: &Vec<&str>) -> (r: bool)
    ensures
        r == excluded@.map_values(|e: &str| e@).contains(key@),
{
    let ghost ev = excluded@.map_values(|e: &str| e@);
    let mut i: usize = 0;
    while i < excluded.len()
        invariant
            i <= excluded@.len(),
            ev == excluded@.map_values(|e: &str| e@),
            forall|q: int| 0 <= q < i ==> ev[q] != key@,
        decreases excluded@.len() - i,
    {
        if str_eq(excluded[i], key) {
            assert(ev[i as int] == key@);
            return true;
        }
        i = i + 1;
    }
    false
}

/// Appends the scalar lines, then the sections, of the fields not excluded.
fn write_kept_fields(out: &mut String, m: &Vec<(String, JsonValue)>, excluded: &Vec<&str>)
    ensures
        final(out)@ == old(out)@ + fields_spec(
            kept_fields(m@, excluded@.map_values(|e: &str| e@)),
            Seq::empty(),
        ),
{
    let ghost ex = excluded@.map_values(|e: &str| e@);
    let ghost keep = |f: (String, JsonValue)| !ex.contains(f.0@);
    let ghost start = out@;
    let mut i: usize = 0;
    proof {
        reveal(Seq::filter);
    }
    assert(m@.subrange(0, 0) =~= Seq::<(String, JsonValue)>::empty());
    assert(m@.subrange(0, 0).filter(keep) =~= Seq::<(String, JsonValue)>::empty());
    while i < m.len()
        invariant
            i <= m@.len(),
            ex == excluded@.map_values(|e: &str| e@),
            keep == (|f: (String, JsonValue)| !ex.contains(f.0@)),
            out@ == start + scalar_lines_spec(m@.subrange(0, i as int).filter(keep), ""@),
        decreases m@.len() - i,
    {
        proof {
            reveal(Seq::filter);
        }
        let ghost sub = m@.subrange(0, i + 1);
        assert(sub.drop_last() =~= m@.subrange(0, i as int));
        assert(sub.last() == m@[i as int]);
        if !key_excluded(m[i].0.as_str(), excluded) {
            assert(sub.filter(keep) == m@.subrange(0, i as int).filter(keep).push(m@[i as int]));
            assert(sub.filter(keep).drop_last() =~= m@.subrange(0, i as int).filter(keep));
            if !is_section(&m[i].1) {
                push_line(out, "", m[i].0.as_str(), &m[i].1);
            }
        } else {
            assert(sub.filter(keep) == m@.subrange(0, i as int).filter(keep));
        }
        i = i + 1;
    }
    assert(m@.subrange(0, m@.len() as int) =~= m@);
    let ghost mid = out@;
    let mut j: usize = 0;
    while j < m.len()
        invariant
            j <= m@.len(),
            ex == excluded@.map_values(|e: &str| e@),
            keep == (|f: (String, JsonValue)| !ex.contains(f.0@)),
            out@ == mid + section_blocks_spec(m@.subrange(0, j as int).filter(keep), ""@),
        decreases m@.len() - j,
    {
        proof {
            reveal(Seq::filter);
        }
        let ghost sub = m@.subrange(0, j + 1);
        assert(sub.drop_last() =~= m@.subrange(0, j as int));
        assert(sub.last() == m@[j as int]);
        if !key_excluded(m[j].0.as_str(), excluded) {
            assert(sub.filter(keep) == m@.subrange(0, j as int).filter(keep).push(m@[j as int]));
            assert(sub.filter(keep).drop_last() =~= m@.subrange(0, j as int).filter(keep));
            if is_section(&m[j].1) {
                write_section(out, m[j].0.as_str(), &m[j].1, "");
            }
        } else {
            assert(sub.filter(keep) == m@.subrange(0, j as int).filter(keep));
        }
        j = j + 1;
    }
    proof {
        reveal_strlit("");
    }
    assert(""@ =~= Seq::<char>::empty());
    assert(out@ =~= start + fields_spec(kept_fields(m@, ex), Seq::empty()));
}

/// The generic rendering of an object payload: the header, the scalar
/// fields, then the sections, with trailing white space dropped.
pub open spec fn generic_spec(m: Seq<(String, JsonValue)>) -> Seq<char> {
    finish_spec(header_spec(m) + fields_spec(kept_fields(m, seq!["command"@, "status"@]), Seq::empty()))
}

/// Renders an object payload generically (see `generic_spec`).
pub fn render_generic(m: &Vec<(String, JsonValue)>) -> (r: String)
    ensures
        r@ == generic_spec(m@),
{
    let mut out = String::new();
    push_header(&mut out, m);
    let mut excluded: Vec<&str> = Vec::new();
    excluded.push("command");
    excluded.push("status");
    assert(excluded@.map_values(|e: &str| e@) =~= seq!["command"@, "status"@]);
    write_kept_fields(&mut out, m, &excluded);
    assert(out@ =~= header_spec(m@) + fields_spec(kept_fields(m@, seq!["command"@, "status"@]), Seq::empty()));
    finish(out)
}


/// The id of a UUID text as `uuid::Uuid::parse_str` reads it, if it is one.
pub uninterp spec fn uuid_of(s: Seq<char>) -> Option<u128>;

/// `uuid::Uuid::parse_str`, giving the id's 128-bit value. Claimed: the
/// result depends on the text alone, and a text of fewer than 32
/// characters never parses (the parser takes only 32, 36, 38 or 45 bytes,
/// and a shorter text that is that long in bytes holds a byte that is no
/// hexadecimal digit); which longer texts parse, and to what, is not stated.
#[verifier::external_body]
pub(crate) fn parse_uuid(s: &str) -> (r: Option<u128>)
    ensures
        r == uuid_of(s@),
        s@.len() < 32 ==> r is None,
{
    uuid::Uuid::parse_str(s).ok().map(|id| id.as_u128())
}

/// The lower-case hexadecimal digit of a value below sixteen.
pub open spec fn hex_char(d: nat) -> char {
    if d < 10 {
        ((d + 48) as u32) as char
    } else {
        ((d + 87) as u32) as char
    }
}

/// The last `n` hexadecimal digits of `x`, with leading zeros.
pub open spec fn hex_digits(x: nat, n: nat) -> Seq<char>
    decreases n,
{
    if n == 0 {
        Seq::empty()
    } else {
        hex_digits(x / 16, (n - 1) as nat).push(hex_char(x % 16))
    }
}

pub(crate) fn push_hex(out: &mut String, x: u128, n: usize)
    ensures
        final(out)@ == old(out)@ + hex_digits(x as nat, n as nat),
    decreases n,
{
    if n == 0 {
        assert(out@ =~= old(out)@ + hex_digits(x as nat, n as nat));
        return;
    }
    push_hex(out, x / 16, n - 1);
    let d: u128 = x % 16;
    let c: char = if d < 10 {
        let b: u8 = (d + 48) as u8;
        b as char
    } else {
        let b: u8 = (d + 87) as u8;
        b as char
    };
    assert(c == hex_char(d as nat));
    crate::text::push_char(out, c);
    assert(out@ =~= old(out)@ + hex_digits(x as nat, n as nat));
}

/// The short form of a ticket id: the first eight hexadecimal digits of the
/// UUID when the text is one, else its first eight characters.
pub open spec fn short_value_spec(raw: Seq<char>) -> Seq<char> {
    match uuid_of(raw) {
        Some(id) => hex_digits(id as nat / 0x1_0000_0000_0000_0000_0000_0000, 8),
        None => if raw.len() <= 8 {
            raw
        } else {
            raw.take(8)
        },
    }
}

/// The short form of a ticket id (see `short_value_spec`).
pub fn short_ticket_value(raw: &str) -> (r: String)
    ensures
        r@ == short_value_spec(raw@),
        raw@.len() < 32 ==> r@ == (if raw@.len() <= 8 { raw@ } else { raw@.take(8) }),
{
    match parse_uuid(raw) {
        Some(id) => {
            let mut out = String::new();
            push_hex(&mut out, id / 0x1_0000_0000_0000_0000_0000_0000, 8);
            assert(out@ =~= short_value_spec(raw@));
            out
        },
        None => {
            let v = chars_of(raw);
            let n: usize = if v.len() <= 8 { v.len() } else { 8 };
            let mut out: Vec<char> = Vec::new();
            let mut i: usize = 0;
            while i < n
                invariant
                    i <= n <= v@.len(),
                    n == if v@.len() <= 8 { v@.len() } else { 8 },
                    out@ == v@.subrange(0, i as int),
                decreases n - i,
            {
                out.push(v[i]);
                assert(v@.subrange(0, i + 1) =~= v@.subrange(0, i as int).push(v@[i as int]));
                i = i + 1;
            }
            assert(v@.subrange(0, n as int) =~= short_value_spec(raw@));
            string_of(out.as_slice())
        },
    }
}

/// Where field `key` first occurs in an object's fields (their number when
/// it does not).
pub open spec fn first_index(m: Seq<(String, JsonValue)>, key: Seq<char>) -> nat
    decreases m.len(),
{
    if m.len() == 0 {
        0
    } else if m[0].0@ == key {
        0
    } else {
        1 + first_index(m.drop_first(), key)
    }
}

/// The first position of a key holds the field that a lookup of the key
/// returns; past the end means the key is absent.
pub proof fn lemma_first_index(m: Seq<(String, JsonValue)>, key: Seq<char>)
    ensures
        first_index(m, key) <= m.len(),
        first_index(m, key) < m.len() ==> field_spec(m, key) == Some(m[first_index(m, key) as int].1),
        first_index(m, key) == m.len() ==> field_spec(m, key) is None,
    decreases m.len(),
{
    if m.len() > 0 && m[0].0@ != key {
        lemma_first_index(m.drop_first(), key);
    }
}

/// The children of a workflow tree node: its `children` array, if any.
pub open spec fn children_of(node: JsonValue) -> Seq<JsonValue> {
    match node {
        JsonValue::Object(m, _) => {
            let i = first_index(m@, "children"@);
            if i < m@.len() {
                match m@[i as int].1 {
                    JsonValue::Array(a) => a@,
                    _ => Seq::empty(),
                }
            } else {
                Seq::empty()
            }
        },
        _ => Seq::empty(),
    }
}

/// The children of a JSON value are smaller than the value.
pub proof fn lemma_children_smaller(node: JsonValue)
    requires
        children_of(node).len() > 0,
    ensures
        decreases_to!(node => children_of(node)),
{
    match node {
        JsonValue::Object(m, c) => {
            let i = first_index(m@, "children"@);
            lemma_first_index(m@, "children"@);
            match m@[i as int].1 {
                JsonValue::Array(a) => {
                    assert(decreases_to!(node => node->Object_0));
                    assert(decreases_to!(m => m@));
                    assert(decreases_to!(m@ => m@[i as int]));
                    assert(decreases_to!(m@[i as int] => m@[i as int].1));
                    assert(decreases_to!(m@[i as int].1 => (m@[i as int].1)->Array_0));
                    assert(decreases_to!(a => a@));
                    assert(decreases_to!(node => children_of(node)));
                },
                _ => {},
            }
        },
        _ => {},
    }
}

/// Whether field `key` is `true`.
pub open spec fn bool_field(m: Seq<(String, JsonValue)>, key: Seq<char>) -> bool {
    match field_spec(m, key) {
        Some(JsonValue::Bool(b)) => b,
        _ => false,
    }
}

/// The indentation under a tree node: two spaces under the root, else the
/// prefix continued by a bar unless the node is the last child.
pub open spec fn child_prefix_spec(prefix: Seq<char>, is_last: bool, is_root: bool) -> Seq<char> {
    if is_root {
        "  "@
    } else if is_last {
        prefix + "   "@
    } else {
        prefix + "|  "@
    }
}

/// The two lines of a workflow tree node: its marker (`*` for a frontier
/// ticket, `o` otherwise) with short id and title, then its state,
/// priority, blocker and frontier counts and distance.
pub open spec fn node_lines_spec(node: JsonValue, prefix: Seq<char>, is_last: bool, is_root: bool) -> Seq<char> {
    let m = node_fields(node);
    let branch = if is_root {
        ""@
    } else if is_last {
        "\\- "@
    } else {
        "|- "@
    };
    let marker = if bool_field(m, "is_frontier"@) {
        "*"@
    } else {
        "o"@
    };
    prefix + branch + marker + " "@ + short_value_spec(str_or(m, "id"@, "-"@)) + "  "@ + str_or(
        m,
        "title"@,
        "(untitled ticket)"@,
    ) + "\n"@ + child_prefix_spec(prefix, is_last, is_root) + "state: "@ + str_or(m, "state"@, "-"@)
        + "  priority: "@ + str_or(m, "priority"@, "none"@) + "  remaining_blockers: "@ + decimal(
        u64_or_zero(m, "remaining_blocker_count"@),
    ) + "  frontier_leaves: "@ + decimal(u64_or_zero(m, "unresolved_frontier_leaf_count"@))
        + "  blocker_distance: "@ + decimal(u64_or_zero(m, "blocker_distance"@)) + "\n"@
}

/// A workflow tree node and, below it, its children in order.
pub open spec fn tree_spec(node: JsonValue, prefix: Seq<char>, is_last: bool, is_root: bool) -> Seq<char>
    decreases node, 1nat,
{
    let cs = children_of(node);
    node_lines_spec(node, prefix, is_last, is_root) + if cs.len() > 0 {
        proof {
            lemma_children_smaller(node);
        }
        kids_spec(cs, cs.len(), child_prefix_spec(prefix, is_last, is_root))
    } else {
        Seq::empty()
    }
}

/// The first `k` children, each the last one when it ends the list.
pub open spec fn kids_spec(cs: Seq<JsonValue>, k: nat, prefix: Seq<char>) -> Seq<char>
    decreases cs, k,
{
    if k == 0 || k > cs.len() {
        Seq::empty()
    } else {
        kids_spec(cs, (k - 1) as nat, prefix) + tree_spec(cs[k - 1], prefix, k == cs.len(), false)
    }
}

/// The number of line breaks in a text.
pub open spec fn line_breaks(s: Seq<char>) -> nat
    decreases s.len(),
{
    if s.len() == 0 {
        0
    } else {
        line_breaks(s.drop_last()) + if s.last() == '\n' { 1nat } else { 0nat }
    }
}

/// Whether a text holds no line break.
pub open spec fn one_line(s: Seq<char>) -> bool {
    forall|i: int| 0 <= i < s.len() ==> s[i] != '\n'
}

/// The number of nodes of a workflow tree.
pub open spec fn tree_size(node: JsonValue) -> nat
    decreases node, 1nat,
{
    let cs = children_of(node);
    1 + if cs.len() > 0 {
        proof {
            lemma_children_smaller(node);
        }
        forest_size(cs, cs.len())
    } else {
        0
    }
}

/// The number of nodes under the first `k` children.
pub open spec fn forest_size(cs: Seq<JsonValue>, k: nat) -> nat
    decreases cs, k,
{
    if k == 0 || k > cs.len() {
        0
    } else {
        forest_size(cs, (k - 1) as nat) + tree_size(cs[k - 1])
    }
}

/// Whether the text fields a tree node shows (id, title, state and
/// priority) each fit on one line.
pub open spec fn node_text_one_line(m: Seq<(String, JsonValue)>) -> bool {
    &&& one_line(str_or(m, "id"@, "-"@))
    &&& one_line(str_or(m, "title"@, "(untitled ticket)"@))
    &&& one_line(str_or(m, "state"@, "-"@))
    &&& one_line(str_or(m, "priority"@, "none"@))
}

/// Whether every node of a workflow tree shows its text fields on one line.
pub open spec fn tree_one_line(node: JsonValue) -> bool
    decreases node, 1nat,
{
    let cs = children_of(node);
    node_text_one_line(node_fields(node)) && if cs.len() > 0 {
        proof {
            lemma_children_smaller(node);
        }
        forest_one_line(cs, cs.len())
    } else {
        true
    }
}

/// Whether the trees of the first `k` children show their text fields on
/// one line.
pub open spec fn forest_one_line(cs: Seq<JsonValue>, k: nat) -> bool
    decreases cs, k,
{
    if k == 0 || k > cs.len() {
        true
    } else {
        forest_one_line(cs, (k - 1) as nat) && tree_one_line(cs[k - 1])
    }
}

proof fn lemma_line_breaks_add(a: Seq<char>, b: Seq<char>)
    ensures
        line_breaks(a + b) == line_breaks(a) + line_breaks(b),
    decreases b.len(),
{
    if b.len() > 0 {
        assert((a + b).drop_last() =~= a + b.drop_last());
        lemma_line_breaks_add(a, b.drop_last());
    } else {
        assert(a + b =~= a);
    }
}

proof fn lemma_one_line_none(s: Seq<char>)
    requires
        one_line(s),
    ensures
        line_breaks(s) == 0,
    decreases s.len(),
{
    if s.len() > 0 {
        lemma_one_line_none(s.drop_last());
    }
}

proof fn lemma_hex_one_line(x: nat, n: nat)
    ensures
        one_line(hex_digits(x, n)),
    decreases n,
{
    if n > 0 {
        lemma_hex_one_line(x / 16, (n - 1) as nat);
        let d = x % 16;
        assert(hex_char(d) != '\n') by {
            if d < 10 {
                assert(((d + 48) as u32) as char == ((d + 48) as u32) as char);
            }
        }
    }
}

proof fn lemma_decimal_one_line(n: nat)
    ensures
        one_line(decimal(n)),
    decreases n,
{
    if n >= 10 {
        lemma_decimal_one_line(n / 10);
    }
}

proof fn lemma_short_one_line(raw: Seq<char>)
    requires
        one_line(raw),
    ensures
        one_line(short_value_spec(raw)),
{
    match uuid_of(raw) {
        Some(id) => lemma_hex_one_line(id as nat / 0x1_0000_0000_0000_0000_0000_0000, 8),
        None => {},
    }
}

proof fn lemma_one_line_add(a: Seq<char>, b: Seq<char>)
    requires
        one_line(a),
        one_line(b),
    ensures
        one_line(a + b),
{
    assert forall|i: int| 0 <= i < (a + b).len() implies (a + b)[i] != '\n' by {
        if i >= a.len() {
            assert((a + b)[i] == b[i - a.len()]);
        }
    }
}

proof fn lemma_tree_literals_one_line()
    ensures
        one_line(""@),
        one_line("\\- "@),
        one_line("|- "@),
        one_line("*"@),
        one_line("o"@),
        one_line(" "@),
        one_line("  "@),
        one_line("   "@),
        one_line("|  "@),
        one_line("state: "@),
        one_line("  priority: "@),
        one_line("  remaining_blockers: "@),
        one_line("  frontier_leaves: "@),
        one_line("  blocker_distance: "@),
        line_breaks("\n"@) == 1,
{
    reveal_strlit("");
    reveal_strlit("\\- ");
    reveal_strlit("|- ");
    reveal_strlit("*");
    reveal_strlit("o");
    reveal_strlit(" ");
    reveal_strlit("  ");
    reveal_strlit("   ");
    reveal_strlit("|  ");
    reveal_strlit("\n");
    reveal_strlit("state: ");
    reveal_strlit("  priority: ");
    reveal_strlit("  remaining_blockers: ");
    reveal_strlit("  frontier_leaves: ");
    reveal_strlit("  blocker_distance: ");
    assert("\n"@.len() == 1 && "\n"@.last() == '\n');
    assert("\n"@.drop_last() =~= Seq::<char>::empty());
    assert(line_breaks(Seq::<char>::empty()) == 0);
    assert(line_breaks("\n"@) == line_breaks("\n"@.drop_last()) + 1);
}

proof fn lemma_node_head_one_line(m: Seq<(String, JsonValue)>, prefix: Seq<char>, is_last: bool, is_root: bool)
    requires
        one_line(prefix),
        node_text_one_line(m),
    ensures
        one_line(prefix + (if is_root { ""@ } else if is_last { "\\- "@ } else { "|- "@ }) + (if bool_field(
            m,
            "is_frontier"@,
        ) {
            "*"@
        } else {
            "o"@
        }) + " "@ + short_value_spec(str_or(m, "id"@, "-"@)) + "  "@ + str_or(m, "title"@, "(untitled ticket)"@)),
{
    lemma_tree_literals_one_line();
    lemma_short_one_line(str_or(m, "id"@, "-"@));
    let branch = if is_root { ""@ } else if is_last { "\\- "@ } else { "|- "@ };
    let marker = if bool_field(m, "is_frontier"@) { "*"@ } else { "o"@ };
    lemma_one_line_add(prefix, branch);
    lemma_one_line_add(prefix + branch, marker);
    lemma_one_line_add(prefix + branch + marker, " "@);
    lemma_one_line_add(prefix + branch + marker + " "@, short_value_spec(str_or(m, "id"@, "-"@)));
    lemma_one_line_add(prefix + branch + marker + " "@ + short_value_spec(str_or(m, "id"@, "-"@)), "  "@);
    lemma_one_line_add(
        prefix + branch + marker + " "@ + short_value_spec(str_or(m, "id"@, "-"@)) + "  "@,
        str_or(m, "title"@, "(untitled ticket)"@),
    );
}

proof fn lemma_node_detail_one_line(m: Seq<(String, JsonValue)>, ind: Seq<char>)
    requires
        one_line(ind),
        node_text_one_line(m),
    ensures
        one_line(ind + "state: "@ + str_or(m, "state"@, "-"@) + "  priority: "@ + str_or(m, "priority"@, "none"@)
            + "  remaining_blockers: "@ + decimal(u64_or_zero(m, "remaining_blocker_count"@))
            + "  frontier_leaves: "@ + decimal(u64_or_zero(m, "unresolved_frontier_leaf_count"@))
            + "  blocker_distance: "@ + decimal(u64_or_zero(m, "blocker_distance"@))),
{
    lemma_tree_literals_one_line();
    let d1 = decimal(u64_or_zero(m, "remaining_blocker_count"@));
    let d2 = decimal(u64_or_zero(m, "unresolved_frontier_leaf_count"@));
    let d3 = decimal(u64_or_zero(m, "blocker_distance"@));
    lemma_decimal_one_line(u64_or_zero(m, "remaining_blocker_count"@));
    lemma_decimal_one_line(u64_or_zero(m, "unresolved_frontier_leaf_count"@));
    lemma_decimal_one_line(u64_or_zero(m, "blocker_distance"@));
    let st = str_or(m, "state"@, "-"@);
    let pr = str_or(m, "priority"@, "none"@);
    lemma_one_line_add(ind, "state: "@);
    lemma_one_line_add(ind + "state: "@, st);
    lemma_one_line_add(ind + "state: "@ + st, "  priority: "@);
    lemma_one_line_add(ind + "state: "@ + st + "  priority: "@, pr);
    lemma_one_line_add(ind + "state: "@ + st + "  priority: "@ + pr, "  remaining_blockers: "@);
    lemma_one_line_add(ind + "state: "@ + st + "  priority: "@ + pr + "  remaining_blockers: "@, d1);
    lemma_one_line_add(ind + "state: "@ + st + "  priority: "@ + pr + "  remaining_blockers: "@ + d1, "  frontier_leaves: "@);
    lemma_one_line_add(
        ind + "state: "@ + st + "  priority: "@ + pr + "  remaining_blockers: "@ + d1 + "  frontier_leaves: "@,
        d2,
    );
    lemma_one_line_add(
        ind + "state: "@ + st + "  priority: "@ + pr + "  remaining_blockers: "@ + d1 + "  frontier_leaves: "@ + d2,
        "  blocker_distance: "@,
    );
    lemma_one_line_add(
        ind + "state: "@ + st + "  priority: "@ + pr + "  remaining_blockers: "@ + d1 + "  frontier_leaves: "@ + d2
            + "  blocker_distance: "@,
        d3,
    );
}

/// A workflow tree node shows two lines.
proof fn lemma_node_two_lines(node: JsonValue, prefix: Seq<char>, is_last: bool, is_root: bool)
    requires
        one_line(prefix),
        node_text_one_line(node_fields(node)),
    ensures
        line_breaks(node_lines_spec(node, prefix, is_last, is_root)) == 2,
{
    let m = node_fields(node);
    let cp = child_prefix_spec(prefix, is_last, is_root);
    lemma_tree_literals_one_line();
    lemma_one_line_add(prefix, "   "@);
    lemma_one_line_add(prefix, "|  "@);
    assert(one_line(cp));
    lemma_node_head_one_line(m, prefix, is_last, is_root);
    lemma_node_detail_one_line(m, cp);
    let l1 = node_head_spec(m, prefix, is_last, is_root).drop_last();
    let l2 = node_detail_spec(m, cp).drop_last();
    assert(node_head_spec(m, prefix, is_last, is_root) =~= l1 + "\n"@) by {
        reveal_strlit("\n");
    }
    assert(node_detail_spec(m, cp) =~= l2 + "\n"@) by {
        reveal_strlit("\n");
    }
    lemma_node_lines(node, prefix, is_last, is_root);
    lemma_one_line_none(l1);
    lemma_one_line_none(l2);
    lemma_line_breaks_add(l1, "\n"@);
    lemma_line_breaks_add(l2, "\n"@);
    lemma_line_breaks_add(l1 + "\n"@, l2 + "\n"@);
}

/// The text of a workflow tree has two lines per node, when the prefix and
/// the text fields of every node fit on one line.
pub proof fn lemma_tree_two_lines_per_node(node: JsonValue, prefix: Seq<char>, is_last: bool, is_root: bool)
    requires
        one_line(prefix),
        tree_one_line(node),
    ensures
        line_breaks(tree_spec(node, prefix, is_last, is_root)) == 2 * tree_size(node),
    decreases node, 1nat,
{
    lemma_node_two_lines(node, prefix, is_last, is_root);
    let cs = children_of(node);
    if cs.len() > 0 {
        lemma_children_smaller(node);
        let cp = child_prefix_spec(prefix, is_last, is_root);
        reveal_strlit("  ");
        reveal_strlit("   ");
        reveal_strlit("|  ");
        assert(one_line(cp));
        lemma_forest_two_lines_per_node(cs, cs.len(), cp);
        lemma_line_breaks_add(node_lines_spec(node, prefix, is_last, is_root), kids_spec(cs, cs.len(), cp));
    } else {
        assert(node_lines_spec(node, prefix, is_last, is_root) + Seq::<char>::empty()
            =~= node_lines_spec(node, prefix, is_last, is_root));
    }
}

/// The text of the first `k` children has two lines per node under them.
pub proof fn lemma_forest_two_lines_per_node(cs: Seq<JsonValue>, k: nat, prefix: Seq<char>)
    requires
        one_line(prefix),
        forest_one_line(cs, k),
    ensures
        line_breaks(kids_spec(cs, k, prefix)) == 2 * forest_size(cs, k),
    decreases cs, k,
{
    if k == 0 || k > cs.len() {
        assert(line_breaks(Seq::<char>::empty()) == 0);
    } else {
        lemma_forest_two_lines_per_node(cs, (k - 1) as nat, prefix);
        lemma_tree_two_lines_per_node(cs[k - 1], prefix, k == cs.len(), false);
        lemma_line_breaks_add(
            kids_spec(cs, (k - 1) as nat, prefix),
            tree_spec(cs[k - 1], prefix, k == cs.len(), false),
        );
    }
}

fn push_bool_marker(out: &mut String, m: &Vec<(String, JsonValue)>)
    ensures
        final(out)@ == old(out)@ + if bool_field(m@, "is_frontier"@) {
            "*"@
        } else {
            "o"@
        },
{
    match get_field(m, "is_frontier") {
        Some(JsonValue::Bool(true)) => out.append("*"),
        _ => out.append("o"),
    }
}

/// The first line of a workflow tree node.
pub open spec fn node_head_spec(m: Seq<(String, JsonValue)>, prefix: Seq<char>, is_last: bool, is_root: bool) -> Seq<char> {
    let branch = if is_root {
        ""@
    } else if is_last {
        "\\- "@
    } else {
        "|- "@
    };
    let marker = if bool_field(m, "is_frontier"@) {
        "*"@
    } else {
        "o"@
    };
    prefix + branch + marker + " "@ + short_value_spec(str_or(m, "id"@, "-"@)) + "  "@ + str_or(
        m,
        "title"@,
        "(untitled ticket)"@,
    ) + "\n"@
}

/// The second line of a workflow tree node.
pub open spec fn node_detail_spec(m: Seq<(String, JsonValue)>, ind: Seq<char>) -> Seq<char> {
    ind + "state: "@ + str_or(m, "state"@, "-"@) + "  priority: "@ + str_or(m, "priority"@, "none"@)
        + "  remaining_blockers: "@ + decimal(u64_or_zero(m, "remaining_blocker_count"@))
        + "  frontier_leaves: "@ + decimal(u64_or_zero(m, "unresolved_frontier_leaf_count"@))
        + "  blocker_distance: "@ + decimal(u64_or_zero(m, "blocker_distance"@)) + "\n"@
}

proof fn lemma_node_lines(node: JsonValue, prefix: Seq<char>, is_last: bool, is_root: bool)
    ensures
        node_lines_spec(node, prefix, is_last, is_root) == node_head_spec(node_fields(node), prefix, is_last, is_root)
            + node_detail_spec(node_fields(node), child_prefix_spec(prefix, is_last, is_root)),
{
    assert(node_lines_spec(node, prefix, is_last, is_root) =~= node_head_spec(node_fields(node), prefix, is_last, is_root)
        + node_detail_spec(node_fields(node), child_prefix_spec(prefix, is_last, is_root)));
}

#[verifier::rlimit(60)]
fn push_node_head(out: &mut String, m: &Vec<(String, JsonValue)>, prefix: &str, is_last: bool, is_root: bool)
    ensures
        final(out)@ == old(out)@ + node_head_spec(m@, prefix@, is_last, is_root),
{
    out.append(prefix);
    let ghost branch = if is_root {
        ""@
    } else if is_last {
        "\\- "@
    } else {
        "|- "@
    };
    if is_root {
        out.append("");
    } else if is_last {
        out.append("\\- ");
    } else {
        out.append("|- ");
    }
    assert(out@ == old(out)@ + prefix@ + branch);
    push_bool_marker(out, m);
    out.append(" ");
    let id = match get_field(m, "id") {
        Some(JsonValue::String(s)) => short_ticket_value(s.as_str()),
        _ => short_ticket_value("-"),
    };
    out.append(id.as_str());
    out.append("  ");
    push_str_field(out, m, "title", "(untitled ticket)");
    out.append("\n");
    assert(out@ =~= old(out)@ + node_head_spec(m@, prefix@, is_last, is_root));
}

fn push_node_detail(out: &mut String, m: &Vec<(String, JsonValue)>, ind: &str)
    ensures
        final(out)@ == old(out)@ + node_detail_spec(m@, ind@),
{
    out.append(ind);
    out.append("state: ");
    push_str_field(out, m, "state", "-");
    out.append("  priority: ");
    push_str_field(out, m, "priority", "none");
    out.append("  remaining_blockers: ");
    push_u64_field(out, m, "remaining_blocker_count");
    out.append("  frontier_leaves: ");
    push_u64_field(out, m, "unresolved_frontier_leaf_count");
    out.append("  blocker_distance: ");
    push_u64_field(out, m, "blocker_distance");
    out.append("\n");
    assert(out@ =~= old(out)@ + node_detail_spec(m@, ind@));
}

fn child_prefix(prefix: &str, is_last: bool, is_root: bool) -> (r: String)
    ensures
        r@ == child_prefix_spec(prefix@, is_last, is_root),
{
    if is_root {
        "  ".to_owned()
    } else if is_last {
        let mut p = prefix.to_owned();
        p.append("   ");
        p
    } else {
        let mut p = prefix.to_owned();
        p.append("|  ");
        p
    }
}

/// Appends a workflow tree node and its children (see `tree_spec`).
fn write_workflow_tree_node(out: &mut String, node: &JsonValue, prefix: &str, is_last: bool, is_root: bool)
    ensures
        final(out)@ == old(out)@ + tree_spec(*node, prefix@, is_last, is_root),
    decreases *node, 1nat,
{
    let empty: Vec<(String, JsonValue)> = Vec::new();
    let m: &Vec<(String, JsonValue)> = match node {
        JsonValue::Object(fields, _) => fields,
        _ => &empty,
    };
    assert(m@ =~= node_fields(*node));
    let cp = child_prefix(prefix, is_last, is_root);
    push_node_head(out, m, prefix, is_last, is_root);
    push_node_detail(out, m, cp.as_str());
    proof {
        lemma_node_lines(*node, prefix@, is_last, is_root);
    }
    let ghost mid = out@;
    assert(mid == old(out)@ + node_lines_spec(*node, prefix@, is_last, is_root));
    let ghost cs = children_of(*node);
    match node {
        JsonValue::Object(fields, _) => {
            proof {
                lemma_first_index(fields@, "children"@);
            }
            match get_field(fields, "children") {
                Some(JsonValue::Array(a)) => {
                    assert(a@ == cs);
                    let n = a.len();
                    if n == 0 {
                        assert(out@ =~= old(out)@ + tree_spec(*node, prefix@, is_last, is_root));
                        return;
                    }
                    let mut i: usize = 0;
                    while i < n
                        invariant
                            n == a@.len(),
                            a@ == cs,
                            cs == children_of(*node),
                            cs.len() > 0,
                            i <= n,
                            cp@ == child_prefix_spec(prefix@, is_last, is_root),
                            out@ == mid + kids_spec(cs, i as nat, cp@),
                        decreases n - i,
                    {
                        proof {
                            lemma_children_smaller(*node);
                            assert(decreases_to!(cs => cs[i as int]));
                        }
                        write_workflow_tree_node(out, &a[i], cp.as_str(), i + 1 == n, false);
                        i = i + 1;
                    }
                    assert(out@ =~= old(out)@ + tree_spec(*node, prefix@, is_last, is_root));
                    return;
                },
                _ => {},
            }
        },
        _ => {},
    }
    assert(cs.len() == 0);
    assert(out@ =~= old(out)@ + tree_spec(*node, prefix@, is_last, is_root));
}


/// The elements of an array: its items, none for another value.
pub open spec fn array_items(v: Option<JsonValue>) -> Seq<JsonValue> {
    match v {
        Some(JsonValue::Array(a)) => a@,
        _ => Seq::empty(),
    }
}

/// Texts joined by `, `.
pub open spec fn join_texts(s: Seq<Seq<char>>) -> Seq<char>
    decreases s.len(),
{
    if s.len() == 0 {
        Seq::empty()
    } else if s.len() == 1 {
        s[0]
    } else {
        join_texts(s.drop_last()) + ", "@ + s.last()
    }
}

/// The short forms of the string elements of an array, in order.
pub open spec fn short_strings(a: Seq<JsonValue>) -> Seq<Seq<char>>
    decreases a.len(),
{
    if a.len() == 0 {
        Seq::empty()
    } else {
        let prev = short_strings(a.drop_last());
        match a.last() {
            JsonValue::String(x) => prev.push(short_value_spec(x@)),
            _ => prev,
        }
    }
}

/// The blocker ids of a frontier item, or `-` when there are none.
pub open spec fn blocker_ids_spec(m: Seq<(String, JsonValue)>) -> Seq<char> {
    let j = join_texts(short_strings(array_items(field_spec(m, "remaining_blockers"@))));
    if j.len() == 0 {
        "-"@
    } else {
        j
    }
}

/// The dependee count of a frontier item: `dependee_count`, or `dependees`
/// when that field is missing; 0 when it is not an unsigned number.
pub open spec fn dependees_spec(m: Seq<(String, JsonValue)>) -> nat {
    match field_spec(m, "dependee_count"@) {
        Some(_) => u64_or_zero(m, "dependee_count"@),
        None => u64_or_zero(m, "dependees"@),
    }
}

/// The first line of a frontier item: rank, short id and title.
pub open spec fn item_line1(m: Seq<(String, JsonValue)>) -> Seq<char> {
    "  #"@ + decimal(u64_or_zero(m, "rank"@)) + "  "@ + short_value_spec(str_or(m, "id"@, "-"@)) + "  "@
        + str_or(m, "title"@, "(untitled ticket)"@) + "\n"@
}

/// The second line of a frontier item: state, priority and counts.
pub open spec fn item_line2(m: Seq<(String, JsonValue)>) -> Seq<char> {
    "  state: "@ + str_or(m, "state"@, "-"@) + "  priority: "@ + str_or(m, "priority"@, "none"@)
        + "  dependee_count: "@ + decimal(dependees_spec(m)) + "  dependency_count: "@ + decimal(
        u64_or_zero(m, "dependency_count"@),
    ) + "\n"@
}

/// The last three lines of a frontier item: blockers, creation and id.
pub open spec fn item_rest(m: Seq<(String, JsonValue)>) -> Seq<char> {
    "  remaining_blockers: "@ + decimal(u64_or_zero(m, "remaining_blocker_count"@)) + "  blocker_ids: "@
        + blocker_ids_spec(m) + "\n"@ + "  created_at: "@ + str_or(m, "created_at"@, "-"@) + "\n"@
        + "  ticket_id: "@ + str_or(m, "id"@, "-"@) + "\n"@
}

/// The five lines of one frontier item, after a blank line.
pub open spec fn frontier_item_spec(item: JsonValue) -> Seq<char> {
    let m = node_fields(item);
    "\n"@ + item_line1(m) + item_line2(m) + item_rest(m)
}

/// The frontier items, one after the other.
pub open spec fn frontier_list_spec(items: Seq<JsonValue>) -> Seq<char>
    decreases items.len(),
{
    if items.len() == 0 {
        Seq::empty()
    } else {
        frontier_list_spec(items.drop_last()) + frontier_item_spec(items.last())
    }
}

/// The frontier section of a tree report.
pub open spec fn frontier_spec(items: Seq<JsonValue>) -> Seq<char> {
    "\n"@ + "Frontier Leaves:\n"@ + if items.len() == 0 {
        "  (no frontier leaves)\n"@
    } else {
        frontier_list_spec(items)
    }
}

fn push_blocker_ids(out: &mut String, m: &Vec<(String, JsonValue)>)
    ensures
        final(out)@ == old(out)@ + blocker_ids_spec(m@),
{
    let mut joined = String::new();
    let mut count: usize = 0;
    let empty: Vec<JsonValue> = Vec::new();
    let a: &Vec<JsonValue> = match get_field(m, "remaining_blockers") {
        Some(JsonValue::Array(a)) => a,
        _ => &empty,
    };
    assert(a@ == array_items(field_spec(m@, "remaining_blockers"@)));
    let mut i: usize = 0;
    assert(a@.subrange(0, 0) =~= Seq::<JsonValue>::empty());
    while i < a.len()
        invariant
            i <= a@.len(),
            count <= i,
            count == short_strings(a@.subrange(0, i as int)).len(),
            joined@ == join_texts(short_strings(a@.subrange(0, i as int))),
        decreases a@.len() - i,
    {
        let ghost sub = a@.subrange(0, i + 1);
        assert(sub.drop_last() =~= a@.subrange(0, i as int));
        assert(sub.last() == a@[i as int]);
        match &a[i] {
            JsonValue::String(x) => {
                if count > 0 {
                    joined.append(", ");
                }
                let sh = short_ticket_value(x.as_str());
                joined.append(sh.as_str());
                let ghost prev = short_strings(a@.subrange(0, i as int));
                assert(short_strings(sub) == prev.push(sh@));
                assert(prev.push(sh@).drop_last() =~= prev);
                assert(joined@ =~= join_texts(short_strings(sub)));
                count = count + 1;
            },
            _ => {},
        }
        i = i + 1;
    }
    assert(a@.subrange(0, a@.len() as int) =~= a@);
    if joined.unicode_len() == 0 {
        out.append("-");
    } else {
        out.append(joined.as_str());
    }
}

fn push_dependees(out: &mut String, m: &Vec<(String, JsonValue)>)
    ensures
        final(out)@ == old(out)@ + decimal(dependees_spec(m@)),
{
    match get_field(m, "dependee_count") {
        Some(_) => push_u64_field(out, m, "dependee_count"),
        None => push_u64_field(out, m, "dependees"),
    }
}

fn push_item_line1(out: &mut String, m: &Vec<(String, JsonValue)>)
    ensures
        final(out)@ == old(out)@ + item_line1(m@),
{
    out.append("  #");
    push_u64_field(out, m, "rank");
    out.append("  ");
    let id = match get_field(m, "id") {
        Some(JsonValue::String(s)) => short_ticket_value(s.as_str()),
        _ => short_ticket_value("-"),
    };
    out.append(id.as_str());
    out.append("  ");
    push_str_field(out, m, "title", "(untitled ticket)");
    out.append("\n");
    assert(out@ =~= old(out)@ + item_line1(m@));
}

fn push_item_line2(out: &mut String, m: &Vec<(String, JsonValue)>)
    ensures
        final(out)@ == old(out)@ + item_line2(m@),
{
    out.append("  state: ");
    push_str_field(out, m, "state", "-");
    out.append("  priority: ");
    push_str_field(out, m, "priority", "none");
    out.append("  dependee_count: ");
    push_dependees(out, m);
    out.append("  dependency_count: ");
    push_u64_field(out, m, "dependency_count");
    out.append("\n");
    assert(out@ =~= old(out)@ + item_line2(m@));
}

fn push_item_rest(out: &mut String, m: &Vec<(String, JsonValue)>)
    ensures
        final(out)@ == old(out)@ + item_rest(m@),
{
    out.append("  remaining_blockers: ");
    push_u64_field(out, m, "remaining_blocker_count");
    out.append("  blocker_ids: ");
    push_blocker_ids(out, m);
    out.append("\n");
    out.append("  created_at: ");
    push_str_field(out, m, "created_at", "-");
    out.append("\n");
    out.append("  ticket_id: ");
    push_str_field(out, m, "id", "-");
    out.append("\n");
    assert(out@ =~= old(out)@ + item_rest(m@));
}

fn push_frontier_item(out: &mut String, item: &JsonValue)
    ensures
        final(out)@ == old(out)@ + frontier_item_spec(*item),
{
    let empty: Vec<(String, JsonValue)> = Vec::new();
    let m: &Vec<(String, JsonValue)> = match item {
        JsonValue::Object(fields, _) => fields,
        _ => &empty,
    };
    assert(m@ =~= node_fields(*item));
    out.append("\n");
    push_item_line1(out, m);
    push_item_line2(out, m);
    push_item_rest(out, m);
    assert(out@ =~= old(out)@ + frontier_item_spec(*item));
}

/// Appends the frontier section (see `frontier_spec`).
fn write_frontier_items(out: &mut String, items: &Vec<JsonValue>)
    ensures
        final(out)@ == old(out)@ + frontier_spec(items@),
{
    out.append("\n");
    out.append("Frontier Leaves:\n");
    if items.len() == 0 {
        out.append("  (no frontier leaves)\n");
        assert(out@ =~= old(out)@ + frontier_spec(items@));
        return;
    }
    let ghost start = out@;
    let mut i: usize = 0;
    assert(items@.subrange(0, 0) =~= Seq::<JsonValue>::empty());
    while i < items.len()
        invariant
            i <= items@.len(),
            out@ == start + frontier_list_spec(items@.subrange(0, i as int)),
        decreases items@.len() - i,
    {
        let ghost sub = items@.subrange(0, i + 1);
        assert(sub.drop_last() =~= items@.subrange(0, i as int));
        assert(sub.last() == items@[i as int]);
        push_frontier_item(out, &items[i]);
        assert(out@ =~= start + frontier_list_spec(sub));
        i = i + 1;
    }
    assert(items@.subrange(0, items@.len() as int) =~= items@);
    assert(out@ =~= old(out)@ + frontier_spec(items@));
}

/// A workflow tree report: the header, the other fields, the tree under its
/// heading, then the frontier leaves.
pub open spec fn tree_report_spec(m: Seq<(String, JsonValue)>, heading: Seq<char>) -> Seq<char> {
    finish_spec(
        header_spec(m) + fields_spec(
            kept_fields(m, seq!["command"@, "status"@, "root"@, "frontier_items"@]),
            Seq::empty(),
        ) + match field_spec(m, "root"@) {
            Some(root) => "\n"@ + heading + ":\n"@ + tree_spec(root, Seq::empty(), true, true),
            None => Seq::empty(),
        } + frontier_spec(array_items(field_spec(m, "frontier_items"@))),
    )
}

/// Renders a blocker or unlock tree report (see `tree_report_spec`).
pub fn render_workflow_tree_report(m: &Vec<(String, JsonValue)>, tree_heading: &str) -> (r: String)
    ensures
        r@ == tree_report_spec(m@, tree_heading@),
{
    let mut out = String::new();
    push_header(&mut out, m);
    let mut excluded: Vec<&str> = Vec::new();
    excluded.push("command");
    excluded.push("status");
    excluded.push("root");
    excluded.push("frontier_items");
    assert(excluded@.map_values(|e: &str| e@) =~= seq!["command"@, "status"@, "root"@, "frontier_items"@]);
    write_kept_fields(&mut out, m, &excluded);
    let ghost a = out@;
    match get_field(m, "root") {
        Some(root) => {
            out.append("\n");
            out.append(tree_heading);
            out.append(":\n");
            proof {
                reveal_strlit("");
            }
            write_workflow_tree_node(&mut out, root, "", true, true);
        },
        None => {},
    }
    let ghost b = out@;
    let empty: Vec<JsonValue> = Vec::new();
    let items: &Vec<JsonValue> = match get_field(m, "frontier_items") {
        Some(JsonValue::Array(a)) => a,
        _ => &empty,
    };
    write_frontier_items(&mut out, items);
    proof {
        reveal_strlit("");
    }
    assert(""@ =~= Seq::<char>::empty());
    assert(out@ =~= header_spec(m@) + fields_spec(
        kept_fields(m@, seq!["command"@, "status"@, "root"@, "frontier_items"@]),
        Seq::empty(),
    ) + match field_spec(m@, "root"@) {
        Some(root) => "\n"@ + tree_heading@ + ":\n"@ + tree_spec(root, Seq::empty(), true, true),
        None => Seq::empty(),
    } + frontier_spec(array_items(field_spec(m@, "frontier_items"@))));
    finish(out)
}


/// The severity of a finding, `info` when it has none.
pub open spec fn severity_of(f: JsonValue) -> Seq<char> {
    str_or(node_fields(f), "severity"@, "info"@)
}

/// Errors first, then warnings, then everything else.
pub open spec fn severity_rank(s: Seq<char>) -> nat {
    if s == "error"@ {
        0
    } else if s == "warning"@ {
        1
    } else {
        2
    }
}

/// A health report lists errors first, then warnings, then every other
/// severity.
pub proof fn lemma_severity_order(other: Seq<char>)
    requires
        other != "error"@,
        other != "warning"@,
    ensures
        severity_rank("error"@) < severity_rank("warning"@),
        severity_rank("warning"@) < severity_rank(other),
{
    reveal_strlit("error");
    reveal_strlit("warning");
    assert("error"@.len() == 5 && "warning"@.len() == 7);
}

/// The icon of a severity.
pub open spec fn icon_spec(sev: Seq<char>) -> Seq<char> {
    if sev == "error"@ {
        "ERR "@
    } else if sev == "warning"@ {
        "WARN"@
    } else {
        "INFO"@
    }
}

/// The first line of a health finding.
pub open spec fn finding_line1(f: JsonValue) -> Seq<char> {
    let m = node_fields(f);
    "["@ + icon_spec(severity_of(f)) + "] "@ + str_or(m, "short_id"@, "?"@) + " "@ + str_or(m, "title"@, "?"@) + "\n"@
}

/// The second line of a health finding.
pub open spec fn finding_line2(f: JsonValue) -> Seq<char> {
    let m = node_fields(f);
    "       "@ + str_or(m, "check"@, "?"@) + ": "@ + str_or(m, "message"@, ""@) + "\n"@
}

/// The two lines of one health finding.
pub open spec fn finding_spec(f: JsonValue) -> Seq<char> {
    finding_line1(f) + finding_line2(f)
}

/// The findings of one severity rank, in their order.
pub open spec fn class_text(fs: Seq<JsonValue>, c: nat) -> Seq<char>
    decreases fs.len(),
{
    if fs.len() == 0 {
        Seq::empty()
    } else {
        let prev = class_text(fs.drop_last(), c);
        if severity_rank(severity_of(fs.last())) == c {
            prev + finding_spec(fs.last())
        } else {
            prev
        }
    }
}

/// The `key: count` parts of a summary object.
pub open spec fn summary_parts(sm: Seq<(String, JsonValue)>) -> Seq<Seq<char>>
    decreases sm.len(),
{
    if sm.len() == 0 {
        Seq::empty()
    } else {
        let v = match sm.last().1 {
            JsonValue::Number(n) => match n.as_u64 {
                Some(x) => x as nat,
                None => 0,
            },
            _ => 0,
        };
        summary_parts(sm.drop_last()).push(sm.last().0@ + ": "@ + decimal(v))
    }
}

/// A health report: the counts, the findings sorted by severity (errors,
/// then warnings, then the rest, each group in its order), then either the
/// all-clear line or the summary.
pub open spec fn health_spec(m: Seq<(String, JsonValue)>) -> Seq<char> {
    let fs = array_items(field_spec(m, "findings"@));
    let fc = u64_or_zero(m, "finding_count"@);
    "Health check: "@ + decimal(u64_or_zero(m, "tickets_checked"@)) + " tickets checked, "@ + decimal(fc)
        + " finding(s)\n\n"@ + class_text(fs, 0) + class_text(fs, 1) + class_text(fs, 2) + if fc == 0 {
        "All checks passed.\n"@
    } else {
        "\n"@ + match field_spec(m, "summary"@) {
            Some(JsonValue::Object(sm, _)) => "Summary: "@ + join_texts(summary_parts(sm@)) + "\n"@,
            _ => Seq::empty(),
        }
    }
}

fn severity_rank_exec(f: &JsonValue) -> (r: u8)
    ensures
        r as nat == severity_rank(severity_of(*f)),
{
    let empty: Vec<(String, JsonValue)> = Vec::new();
    let m: &Vec<(String, JsonValue)> = match f {
        JsonValue::Object(fields, _) => fields,
        _ => &empty,
    };
    assert(m@ =~= node_fields(*f));
    match get_field(m, "severity") {
        Some(JsonValue::String(s)) => {
            if str_eq(s.as_str(), "error") {
                0
            } else if str_eq(s.as_str(), "warning") {
                1
            } else {
                2
            }
        },
        _ => {
            proof {
                reveal_strlit("info");
                reveal_strlit("error");
                reveal_strlit("warning");
            }
            assert("info"@ != "error"@) by {
                assert("info"@[0] != "error"@[0]);
            }
            assert("info"@ != "warning"@) by {
                assert("info"@[0] != "warning"@[0]);
            }
            2
        },
    }
}

fn push_finding(out: &mut String, f: &JsonValue)
    ensures
        final(out)@ == old(out)@ + finding_spec(*f),
{
    let empty: Vec<(String, JsonValue)> = Vec::new();
    let m: &Vec<(String, JsonValue)> = match f {
        JsonValue::Object(fields, _) => fields,
        _ => &empty,
    };
    assert(m@ =~= node_fields(*f));
    let rank = severity_rank_exec(f);
    out.append("[");
    if rank == 0 {
        out.append("ERR ");
    } else if rank == 1 {
        out.append("WARN");
    } else {
        out.append("INFO");
    }
    assert(out@ == old(out)@ + "["@ + icon_spec(severity_of(*f)));
    out.append("] ");
    push_str_field(out, m, "short_id", "?");
    out.append(" ");
    push_str_field(out, m, "title", "?");
    out.append("\n");
    assert(out@ =~= old(out)@ + finding_line1(*f));
    let ghost mid = out@;
    out.append("       ");
    push_str_field(out, m, "check", "?");
    out.append(": ");
    push_str_field(out, m, "message", "");
    out.append("\n");
    assert(out@ =~= mid + finding_line2(*f));
    assert(out@ =~= old(out)@ + finding_spec(*f));
}

fn push_class(out: &mut String, fs: &Vec<JsonValue>, c: u8)
    ensures
        final(out)@ == old(out)@ + class_text(fs@, c as nat),
{
    let ghost start = out@;
    let mut i: usize = 0;
    assert(fs@.subrange(0, 0) =~= Seq::<JsonValue>::empty());
    while i < fs.len()
        invariant
            i <= fs@.len(),
            out@ == start + class_text(fs@.subrange(0, i as int), c as nat),
        decreases fs@.len() - i,
    {
        let ghost sub = fs@.subrange(0, i + 1);
        assert(sub.drop_last() =~= fs@.subrange(0, i as int));
        assert(sub.last() == fs@[i as int]);
        if severity_rank_exec(&fs[i]) == c {
            push_finding(out, &fs[i]);
        }
        assert(out@ =~= start + class_text(sub, c as nat));
        i = i + 1;
    }
    assert(fs@.subrange(0, fs@.len() as int) =~= fs@);
}

fn push_summary(out: &mut String, sm: &Vec<(String, JsonValue)>)
    ensures
        final(out)@ == old(out)@ + join_texts(summary_parts(sm@)),
{
    let ghost start = out@;
    let mut i: usize = 0;
    assert(sm@.subrange(0, 0) =~= Seq::<(String, JsonValue)>::empty());
    while i < sm.len()
        invariant
            i <= sm@.len(),
            summary_parts(sm@.subrange(0, i as int)).len() == i,
            out@ == start + join_texts(summary_parts(sm@.subrange(0, i as int))),
        decreases sm@.len() - i,
    {
        let ghost sub = sm@.subrange(0, i + 1);
        assert(sub.drop_last() =~= sm@.subrange(0, i as int));
        assert(sub.last() == sm@[i as int]);
        let ghost prev = summary_parts(sm@.subrange(0, i as int));
        if i > 0 {
            out.append(", ");
        }
        out.append(sm[i].0.as_str());
        out.append(": ");
        match &sm[i].1 {
            JsonValue::Number(n) => match n.as_u64 {
                Some(x) => push_decimal(out, x),
                None => push_decimal(out, 0),
            },
            _ => push_decimal(out, 0),
        }
        let ghost part = summary_parts(sub).last();
        assert(summary_parts(sub) == prev.push(part));
        assert(prev.push(part).drop_last() =~= prev);
        assert(out@ =~= start + join_texts(summary_parts(sub)));
        i = i + 1;
    }
    assert(sm@.subrange(0, sm@.len() as int) =~= sm@);
}

/// Renders a health report (see `health_spec`).
pub fn render_health_report(m: &Vec<(String, JsonValue)>) -> (r: String)
    ensures
        r@ == health_spec(m@),
{
    let mut out = String::new();
    out.append("Health check: ");
    push_u64_field(&mut out, m, "tickets_checked");
    out.append(" tickets checked, ");
    push_u64_field(&mut out, m, "finding_count");
    out.append(" finding(s)\n\n");
    let empty: Vec<JsonValue> = Vec::new();
    let fs: &Vec<JsonValue> = match get_field(m, "findings") {
        Some(JsonValue::Array(a)) => a,
        _ => &empty,
    };
    push_class(&mut out, fs, 0);
    push_class(&mut out, fs, 1);
    push_class(&mut out, fs, 2);
    let ghost mid = out@;
    let fc: u64 = match get_field(m, "finding_count") {
        Some(JsonValue::Number(n)) => match n.as_u64 {
            Some(x) => x,
            None => 0,
        },
        _ => 0,
    };
    if fc == 0 {
        out.append("All checks passed.\n");
    } else {
        out.append("\n");
        match get_field(m, "summary") {
            Some(JsonValue::Object(sm, _)) => {
                out.append("Summary: ");
                push_summary(&mut out, sm);
                out.append("\n");
            },
            _ => {},
        }
    }
    assert(out@ =~= health_spec(m@));
    out
}


/// A ticket recommended as next work, as the board shows it.
pub struct BoardRecommendation {
    pub rank: usize,
    pub ticket_id: String,
    pub title: String,
    pub state: Option<String>,
    pub priority: String,
    pub effort: Option<String>,
    pub dependency_count: usize,
    pub dependee_count: usize,
    pub became_actionable_at: Option<String>,
    pub created_at: String,
}

/// The UTC year, month, day, hour and minute of an RFC 3339 timestamp, as
/// `chrono` reads it, if it is one.
pub uninterp spec fn rfc3339_utc(s: Seq<char>) -> Option<(i32, u32, u32, u32, u32)>;

/// `chrono::DateTime::parse_from_rfc3339`, taken to UTC. Claimed: the
/// result depends on the text alone, and a parsed time has a month from 1
/// to 12, a day from 1 to 31, an hour below 24 and a minute below 60;
/// which texts parse, and to what, is not stated here.
#[verifier::external_body]
fn parse_rfc3339_utc(s: &str) -> (r: Option<(i32, u32, u32, u32, u32)>)
    ensures
        r == rfc3339_utc(s@),
        r matches Some((y, mo, d, h, mi)) ==> 1 <= mo <= 12 && 1 <= d <= 31 && h < 24 && mi < 60,
{
    chrono::DateTime::parse_from_rfc3339(s).ok().map(|t| {
        let u = t.with_timezone(&chrono::Utc);
        (u.year(), u.month(), u.day(), u.hour(), u.minute())
    })
}

/// The English three-letter abbreviation of a month.
pub open spec fn month_abbrev(mo: u32) -> Seq<char> {
    if mo == 1 { "Jan"@ } else if mo == 2 { "Feb"@ } else if mo == 3 { "Mar"@ } else if mo == 4 { "Apr"@ }
    else if mo == 5 { "May"@ } else if mo == 6 { "Jun"@ } else if mo == 7 { "Jul"@ } else if mo == 8 { "Aug"@ }
    else if mo == 9 { "Sep"@ } else if mo == 10 { "Oct"@ } else if mo == 11 { "Nov"@ } else { "Dec"@ }
}

/// A number below 100 with two digits.
pub open spec fn pad2(x: nat) -> Seq<char> {
    if x < 10 {
        "0"@ + decimal(x)
    } else {
        decimal(x)
    }
}

/// A signed number in decimal.
pub open spec fn signed_decimal(x: int) -> Seq<char> {
    if x < 0 {
        "-"@ + decimal((-x) as nat)
    } else {
        decimal(x as nat)
    }
}

/// A creation time as `Mon D YYYY HH:MM UTC`, or the text itself when it
/// is not an RFC 3339 timestamp.
pub open spec fn pretty_created_spec(s: Seq<char>) -> Seq<char> {
    match rfc3339_utc(s) {
        Some((y, mo, d, h, mi)) => month_abbrev(mo) + " "@ + decimal(d as nat) + " "@ + signed_decimal(y as int)
            + " "@ + pad2(h as nat) + ":"@ + pad2(mi as nat) + " UTC"@,
        None => s,
    }
}

fn push_month(out: &mut String, mo: u32)
    ensures
        final(out)@ == old(out)@ + month_abbrev(mo),
{
    if mo == 1 { out.append("Jan") } else if mo == 2 { out.append("Feb") } else if mo == 3 { out.append("Mar") }
    else if mo == 4 { out.append("Apr") } else if mo == 5 { out.append("May") } else if mo == 6 { out.append("Jun") }
    else if mo == 7 { out.append("Jul") } else if mo == 8 { out.append("Aug") } else if mo == 9 { out.append("Sep") }
    else if mo == 10 { out.append("Oct") } else if mo == 11 { out.append("Nov") } else { out.append("Dec") }
}

pub(crate) fn push_pad2(out: &mut String, x: u32)
    ensures
        final(out)@ == old(out)@ + pad2(x as nat),
{
    if x < 10 {
        out.append("0");
    }
    push_decimal(out, x as u64);
    assert(out@ =~= old(out)@ + pad2(x as nat));
}

fn push_signed(out: &mut String, x: i32)
    ensures
        final(out)@ == old(out)@ + signed_decimal(x as int),
{
    if x < 0 {
        out.append("-");
        let m: i64 = -(x as i64);
        push_decimal(out, m as u64);
    } else {
        push_decimal(out, x as u64);
    }
    assert(out@ =~= old(out)@ + signed_decimal(x as int));
}

/// Appends a creation time (see `pretty_created_spec`).
fn push_pretty_created_at(out: &mut String, created_at: &str)
    ensures
        final(out)@ == old(out)@ + pretty_created_spec(created_at@),
{
    match parse_rfc3339_utc(created_at) {
        Some((y, mo, d, h, mi)) => {
            push_month(out, mo);
            out.append(" ");
            push_decimal(out, d as u64);
            out.append(" ");
            push_signed(out, y);
            out.append(" ");
            push_pad2(out, h);
            out.append(":");
            push_pad2(out, mi);
            out.append(" UTC");
        },
        None => out.append(created_at),
    }
    assert(out@ =~= old(out)@ + pretty_created_spec(created_at@));
}

/// At most the first eight characters.
pub open spec fn first8(s: Seq<char>) -> Seq<char> {
    if s.len() <= 8 {
        s
    } else {
        s.take(8)
    }
}

fn push_first8(out: &mut String, s: &str)
    ensures
        final(out)@ == old(out)@ + first8(s@),
{
    let v = chars_of(s);
    let n: usize = if v.len() <= 8 { v.len() } else { 8 };
    let mut i: usize = 0;
    let ghost start = out@;
    while i < n
        invariant
            i <= n <= v@.len(),
            n == if v@.len() <= 8 { v@.len() } else { 8 },
            v@ == s@,
            out@ == start + v@.subrange(0, i as int),
        decreases n - i,
    {
        crate::text::push_char(out, v[i]);
        assert(v@.subrange(0, i + 1) =~= v@.subrange(0, i as int).push(v@[i as int]));
        i = i + 1;
    }
    assert(v@.subrange(0, n as int) =~= first8(s@));
}

/// The text of an optional string, `-` when absent.
pub open spec fn opt_or_dash(o: Option<String>) -> Seq<char> {
    match o {
        Some(x) => x@,
        None => "-"@,
    }
}

/// The first line of a recommendation: rank, short id and title.
pub open spec fn rec_line1(r: BoardRecommendation) -> Seq<char> {
    "  #"@ + decimal(r.rank as nat) + "  "@ + first8(r.ticket_id@) + "  "@ + r.title@ + "\n"@
}

/// The second line of a recommendation: state, priority, effort, counts.
pub open spec fn rec_line2(r: BoardRecommendation) -> Seq<char> {
    "  state: "@ + opt_or_dash(r.state) + "  priority: "@ + r.priority@ + "  effort: "@ + opt_or_dash(r.effort)
        + "  dependee_count: "@ + decimal(r.dependee_count as nat) + "  dependency_count: "@ + decimal(
        r.dependency_count as nat,
    ) + "\n"@
}

/// The last lines of a recommendation: creation time and id.
pub open spec fn rec_rest(r: BoardRecommendation) -> Seq<char> {
    "  created_at: "@ + pretty_created_spec(r.created_at@) + "\n"@ + "  ticket_id: "@ + r.ticket_id@ + "\n"@
}

/// One recommendation after a blank line.
pub open spec fn recommendation_spec(r: BoardRecommendation) -> Seq<char> {
    "\n"@ + rec_line1(r) + rec_line2(r) + rec_rest(r)
}

/// Recommendations one after the other.
pub open spec fn recommendations_spec(rs: Seq<BoardRecommendation>) -> Seq<char>
    decreases rs.len(),
{
    if rs.len() == 0 {
        Seq::empty()
    } else {
        recommendations_spec(rs.drop_last()) + recommendation_spec(rs.last())
    }
}

/// The `Next Up` section.
pub open spec fn next_up_spec(rs: Seq<BoardRecommendation>) -> Seq<char> {
    "\n"@ + "Next Up:\n"@ + if rs.len() == 0 {
        "  (no unblocked tickets ready right now)\n"@
    } else {
        recommendations_spec(rs)
    }
}

fn push_opt(out: &mut String, o: &Option<String>)
    ensures
        final(out)@ == old(out)@ + opt_or_dash(*o),
{
    match o {
        Some(x) => out.append(x.as_str()),
        None => out.append("-"),
    }
}

fn push_rec_line1(out: &mut String, r: &BoardRecommendation)
    ensures
        final(out)@ == old(out)@ + rec_line1(*r),
{
    out.append("  #");
    push_decimal(out, r.rank as u64);
    out.append("  ");
    push_first8(out, r.ticket_id.as_str());
    out.append("  ");
    out.append(r.title.as_str());
    out.append("\n");
    assert(out@ =~= old(out)@ + rec_line1(*r));
}

fn push_rec_line2(out: &mut String, r: &BoardRecommendation)
    ensures
        final(out)@ == old(out)@ + rec_line2(*r),
{
    out.append("  state: ");
    push_opt(out, &r.state);
    out.append("  priority: ");
    out.append(r.priority.as_str());
    out.append("  effort: ");
    push_opt(out, &r.effort);
    out.append("  dependee_count: ");
    push_decimal(out, r.dependee_count as u64);
    out.append("  dependency_count: ");
    push_decimal(out, r.dependency_count as u64);
    out.append("\n");
    assert(out@ =~= old(out)@ + rec_line2(*r));
}

fn push_rec_rest(out: &mut String, r: &BoardRecommendation)
    ensures
        final(out)@ == old(out)@ + rec_rest(*r),
{
    out.append("  created_at: ");
    push_pretty_created_at(out, r.created_at.as_str());
    out.append("\n");
    out.append("  ticket_id: ");
    out.append(r.ticket_id.as_str());
    out.append("\n");
    assert(out@ =~= old(out)@ + rec_rest(*r));
}

fn push_recommendation(out: &mut String, r: &BoardRecommendation)
    ensures
        final(out)@ == old(out)@ + recommendation_spec(*r),
{
    out.append("\n");
    push_rec_line1(out, r);
    push_rec_line2(out, r);
    push_rec_rest(out, r);
    assert(out@ =~= old(out)@ + recommendation_spec(*r));
}

/// Appends the `Next Up` section (see `next_up_spec`).
pub fn write_next_up(out: &mut String, recommended_next: &[BoardRecommendation])
    ensures
        final(out)@ == old(out)@ + next_up_spec(recommended_next@),
{
    out.append("\n");
    out.append("Next Up:\n");
    if recommended_next.len() == 0 {
        out.append("  (no unblocked tickets ready right now)\n");
        assert(out@ =~= old(out)@ + next_up_spec(recommended_next@));
        return;
    }
    let ghost start = out@;
    let mut i: usize = 0;
    assert(recommended_next@.subrange(0, 0) =~= Seq::<BoardRecommendation>::empty());
    while i < recommended_next.len()
        invariant
            i <= recommended_next@.len(),
            out@ == start + recommendations_spec(recommended_next@.subrange(0, i as int)),
        decreases recommended_next@.len() - i,
    {
        let ghost sub = recommended_next@.subrange(0, i + 1);
        assert(sub.drop_last() =~= recommended_next@.subrange(0, i as int));
        assert(sub.last() == recommended_next@[i as int]);
        push_recommendation(out, &recommended_next[i]);
        assert(out@ =~= start + recommendations_spec(sub));
        i = i + 1;
    }
    assert(recommended_next@.subrange(0, recommended_next@.len() as int) =~= recommended_next@);
    assert(out@ =~= old(out)@ + next_up_spec(recommended_next@));
}


/// The `next` report: the header, the other fields, the blocker tree, then
/// the recommended next work.
pub open spec fn next_report_spec(m: Seq<(String, JsonValue)>, rs: Seq<BoardRecommendation>) -> Seq<char> {
    finish_spec(
        header_spec(m) + fields_spec(
            kept_fields(m, seq!["command"@, "status"@, "items"@, "blocker_tree"@]),
            Seq::empty(),
        ) + match field_spec(m, "blocker_tree"@) {
            Some(tree) => "\n"@ + "Blocker Tree:\n"@ + tree_spec(tree, Seq::empty(), true, true),
            None => Seq::empty(),
        } + next_up_spec(rs),
    )
}

/// Renders the `next` report with the given recommendations (see
/// `next_report_spec`).
pub fn render_next_report(m: &Vec<(String, JsonValue)>, recommendations: &[BoardRecommendation]) -> (r: String)
    ensures
        r@ == next_report_spec(m@, recommendations@),
{
    let mut out = String::new();
    push_header(&mut out, m);
    let mut excluded: Vec<&str> = Vec::new();
    excluded.push("command");
    excluded.push("status");
    excluded.push("items");
    excluded.push("blocker_tree");
    assert(excluded@.map_values(|e: &str| e@) =~= seq!["command"@, "status"@, "items"@, "blocker_tree"@]);
    write_kept_fields(&mut out, m, &excluded);
    match get_field(m, "blocker_tree") {
        Some(tree) => {
            out.append("\n");
            out.append("Blocker Tree:\n");
            proof {
                reveal_strlit("");
            }
            write_workflow_tree_node(&mut out, tree, "", true, true);
        },
        None => {},
    }
    write_next_up(&mut out, recommendations);
    proof {
        reveal_strlit("");
    }
    assert(""@ =~= Seq::<char>::empty());
    assert(out@ =~= header_spec(m@) + fields_spec(
        kept_fields(m@, seq!["command"@, "status"@, "items"@, "blocker_tree"@]),
        Seq::empty(),
    ) + match field_spec(m@, "blocker_tree"@) {
        Some(tree) => "\n"@ + "Blocker Tree:\n"@ + tree_spec(tree, Seq::empty(), true, true),
        None => Seq::empty(),
    } + next_up_spec(recommendations@));
    finish(out)
}

/// The rendering of the commands with a report of their own, if the
/// payload is one: board views show their prepared text, `next`, the tree
/// commands and `health` their reports, graph walks their prepared tree,
/// `describe` the description.
pub open spec fn special_spec(m: Seq<(String, JsonValue)>, rs: Seq<BoardRecommendation>) -> Option<Seq<char>> {
    match as_str_spec(field_spec(m, "command"@)) {
        None => None,
        Some(c) => if c == "board_show"@ || c == "board_history"@ {
            as_str_spec(field_spec(m, "human"@))
        } else if c == "next"@ {
            Some(next_report_spec(m, rs))
        } else if c == "blockers"@ {
            Some(tree_report_spec(m, "Blocker Tree"@))
        } else if c == "unblocked_by"@ {
            Some(tree_report_spec(m, "Unlock Tree"@))
        } else if c == "subgraph"@ || c == "topgraph"@ {
            as_str_spec(field_spec(m, "tree"@))
        } else if c == "describe"@ {
            Some(str_or(m, "description"@, "(no description)"@))
        } else if c == "health"@ {
            Some(health_spec(m))
        } else {
            None
        },
    }
}

fn str_field_string(m: &Vec<(String, JsonValue)>, key: &str) -> (r: Option<String>)
    ensures
        match r {
            Some(x) => as_str_spec(field_spec(m@, key@)) == Some(x@),
            None => as_str_spec(field_spec(m@, key@)) is None,
        },
{
    match get_field(m, key) {
        Some(JsonValue::String(s)) => Some(s.clone()),
        _ => None,
    }
}

/// The rendering of a command with a report of its own (see
/// `special_spec`).
pub fn render_special_command(m: &Vec<(String, JsonValue)>, recommendations: &[BoardRecommendation]) -> (r: Option<String>)
    ensures
        match r {
            Some(x) => special_spec(m@, recommendations@) == Some(x@),
            None => special_spec(m@, recommendations@) is None,
        },
{
    let command = match get_field(m, "command") {
        Some(JsonValue::String(c)) => c.as_str(),
        _ => return None,
    };
    if str_eq(command, "board_show") || str_eq(command, "board_history") {
        return str_field_string(m, "human");
    }
    if str_eq(command, "next") {
        return Some(render_next_report(m, recommendations));
    }
    if str_eq(command, "blockers") {
        return Some(render_workflow_tree_report(m, "Blocker Tree"));
    }
    if str_eq(command, "unblocked_by") {
        return Some(render_workflow_tree_report(m, "Unlock Tree"));
    }
    if str_eq(command, "subgraph") || str_eq(command, "topgraph") {
        return str_field_string(m, "tree");
    }
    if str_eq(command, "describe") {
        let mut out = String::new();
        push_str_field(&mut out, m, "description", "(no description)");
        assert(out@ =~= str_or(m@, "description"@, "(no description)"@));
        return Some(out);
    }
    if str_eq(command, "health") {
        return Some(render_health_report(m));
    }
    None
}

/// A payload as human-readable text: an object through its command's own
/// report, or generically; any other value on one line.
pub open spec fn human_spec(payload: JsonValue, rs: Seq<BoardRecommendation>) -> Seq<char> {
    match payload {
        JsonValue::Object(m, _) => match special_spec(m@, rs) {
            Some(t) => t,
            None => generic_spec(m@),
        },
        v => scalar_spec(v),
    }
}

/// Renders a command payload as human-readable text (see `human_spec`).
/// The `next` report lists the given recommendations under `Next Up`.
pub fn render_human_readable(payload: &JsonValue, recommendations: &[BoardRecommendation]) -> (r: String)
    ensures
        r@ == human_spec(*payload, recommendations@),
{
    match payload {
        JsonValue::Object(m, _) => match render_special_command(m, recommendations) {
            Some(t) => t,
            None => render_generic(m),
        },
        v => format_scalar(v),
    }
}


proof fn lemma_trim_end_last(s: Seq<char>)
    ensures
        trim_end_spec(s).len() == 0 || !crate::catalog::is_white(trim_end_spec(s).last()),
    decreases s.len(),
{
    if s.len() > 0 && crate::catalog::is_white(s.last()) {
        lemma_trim_end_last(s.drop_last());
    }
}

/// Finished text ends in exactly one line break: the character before it,
/// if any, is not white space.
pub proof fn lemma_finish_single_newline(s: Seq<char>)
    ensures
        finish_spec(s).len() > 0,
        finish_spec(s).last() == '\n',
        finish_spec(s).len() >= 2 ==> !crate::catalog::is_white(finish_spec(s)[finish_spec(s).len() - 2]),
{
    reveal_strlit("\n");
    lemma_trim_end_last(s);
    let t = trim_end_spec(s);
    assert(finish_spec(s) =~= t.push('\n'));
    if t.len() > 0 {
        assert(finish_spec(s)[finish_spec(s).len() - 2] == t.last());
    }
}

} // verus!
