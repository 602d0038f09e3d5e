use ticket::history::{diff_fields, diff_revisions, json_eq, parse_rev_spec, parse_u64, DiffError, Revision};
use ticket::human::{JsonNumber, JsonValue};

fn s(x: &str) -> JsonValue {
    JsonValue::String(x.to_string())
}

fn n(x: u64) -> JsonValue {
    JsonValue::Number(JsonNumber { text: x.to_string(), as_u64: Some(x) })
}

fn fields(items: Vec<(&str, JsonValue)>) -> Vec<(String, JsonValue)> {
    items.into_iter().map(|(k, v)| (k.to_string(), v)).collect()
}

#[test]
fn numbers_parse_like_str_parse() {
    for text in ["0", "42", "+7", "007", "18446744073709551615", "18446744073709551616", "", "+", "-1", " 1", "1a", "++1"] {
        assert_eq!(parse_u64(text), text.parse::<u64>().ok(), "{text:?}");
    }
}

#[test]
fn latest_names_the_newest_revision() {
    assert_eq!(parse_rev_spec("latest", 9), Some(9));
    assert_eq!(parse_rev_spec("3", 9), Some(3));
    assert_eq!(parse_rev_spec("newest", 9), None);
}

#[test]
fn json_values_compare_structurally() {
    let a = JsonValue::Array(vec![s("x"), n(1), JsonValue::Null]);
    let b = JsonValue::Array(vec![s("x"), n(1), JsonValue::Null]);
    let c = JsonValue::Array(vec![s("x"), n(2), JsonValue::Null]);
    assert!(json_eq(&a, &b));
    assert!(!json_eq(&a, &c));
    let o1 = JsonValue::Object(fields(vec![("k", a)]), String::new());
    let o2 = JsonValue::Object(fields(vec![("k", c)]), String::new());
    assert!(!json_eq(&o1, &o2));
    assert!(!json_eq(&s("1"), &n(1)));
    assert!(json_eq(&JsonValue::Bool(true), &JsonValue::Bool(true)));
}

#[test]
fn field_diff_lists_added_removed_and_changed() {
    let from = fields(vec![("priority", s("low")), ("state", s("open")), ("title", s("T"))]);
    let to = fields(vec![("owner", s("ann")), ("state", s("planned")), ("title", s("T"))]);
    let diff = diff_fields(&from, &to);
    assert_eq!(diff.added, vec![0]);
    assert_eq!(diff.removed, vec![0]);
    assert_eq!(diff.changed, vec![(1, 1)]);
}

#[test]
fn revision_diff_reports_each_failure() {
    let revs = vec![
        Revision { rev: 1, fields: fields(vec![("state", s("open"))]) },
        Revision { rev: 2, fields: fields(vec![("state", s("planned"))]) },
    ];
    assert!(matches!(diff_revisions(&[], "1", "2"), Err(DiffError::NoHistory)));
    assert!(matches!(diff_revisions(&revs, "x", "2"), Err(DiffError::InvalidRevision(t)) if t == "x"));
    assert!(matches!(diff_revisions(&revs, "1", "y"), Err(DiffError::InvalidRevision(t)) if t == "y"));
    assert!(matches!(diff_revisions(&revs, "5", "2"), Err(DiffError::RevisionNotFound(5))));
    let ok = diff_revisions(&revs, "1", "latest").ok().unwrap();
    assert_eq!((ok.from_rev, ok.to_rev, ok.from_index, ok.to_index), (1, 2, 0, 1));
    assert_eq!(ok.diff.changed, vec![(0, 0)]);
    assert!(ok.diff.added.is_empty() && ok.diff.removed.is_empty());
}
