use ticket::catalog::{component_key, normalize_summary, normalize_token, normalize_tokens, state_key, truncate_chars, words_for_keywords};

#[test]
fn summary_takes_first_text_line() {
    assert_eq!(normalize_summary("# Heading\n\nFirst summary line.\nSecond."), "First summary line.");
    assert_eq!(normalize_summary("## Heading only\n\n```rs"), "");
}

#[test]
fn summary_strips_list_markers_and_collapses_space() {
    assert_eq!(normalize_summary("  - 1. Fix   the\tparser  \nnext"), "1. Fix the parser");
    assert_eq!(normalize_summary("-1) Fix   the\tparser"), "Fix the parser");
    assert_eq!(normalize_summary("```\n* \n+ item"), "item");
    assert_eq!(normalize_summary("\r\n  \r\nwindows line\r\n"), "windows line");
}

#[test]
fn summary_is_cut_to_two_hundred_characters() {
    let long = "x".repeat(250);
    let s = normalize_summary(&long);
    assert_eq!(s.chars().count(), 202);
    assert!(s.ends_with("..."));
    assert_eq!(&s[..199], &long[..199]);
}

#[test]
fn truncate_chars_keeps_short_input() {
    assert_eq!(truncate_chars("short", 5), "short");
    assert_eq!(truncate_chars("longer", 5), "long...");
    assert_eq!(truncate_chars("ab", 0), "...");
    assert_eq!(truncate_chars("héllo wörld", 6), "héllo...");
}

#[test]
fn tokens_are_normalized() {
    assert_eq!(normalize_token("  In_Review Now "), "in-review-now");
    assert_eq!(state_key("  "), "unknown");
    assert_eq!(state_key("Planned"), "planned");
    assert_eq!(component_key(None), "unspecified");
    assert_eq!(component_key(Some(" ")), "unspecified");
    assert_eq!(component_key(Some("Ticket_API")), "ticket-api");
}

#[test]
fn keywords_keep_long_ascii_words() {
    assert_eq!(
        words_for_keywords("Fix the DB-parser: v2 ok, Über-cool"),
        vec!["fix", "the", "parser", "ber", "cool"]
    );
    assert!(words_for_keywords("a b c").is_empty());
}

#[test]
fn token_lists_are_sorted_and_deduplicated() {
    let mut items = vec![
        "Ticket".to_string(),
        "open".to_string(),
        " ".to_string(),
        "ticket".to_string(),
        "Docs".to_string(),
        "in review".to_string(),
    ];
    normalize_tokens(&mut items);
    assert_eq!(items, vec!["docs", "in-review", "open", "ticket"]);
}

#[test]
fn normalizing_twice_changes_nothing() {
    for raw in ["  Ticket_API  ", "In Review", "x\ty", "ÄB_c"] {
        let once = normalize_token(raw);
        assert_eq!(normalize_token(&once), once);
    }
    let mut items = vec!["B c".to_string(), "a".to_string(), "b_C".to_string(), "".to_string()];
    normalize_tokens(&mut items);
    let first = items.clone();
    normalize_tokens(&mut items);
    assert_eq!(items, first);
    assert_eq!(first, vec!["a", "b-c"]);
}
