use chrono::{TimeZone, Utc};
use ticket::board_render::{
    entry_status, format_completed_at, heartbeat_age_secs, render_board_history_human, render_board_human,
    short_ticket_id, short_worktree_indicator, truncate_field, warning_suffix, BoardDisplay, BoardDisplayEntry,
    BoardHistoryDisplay, BoardHistorySnapshot,
};
use ticket::workflow::board::{BoardConfig, BoardEntry, BoardEntryStatus, BoardSnapshot};

fn config() -> BoardConfig {
    BoardConfig { max_wip: 3, stale_after_secs: 3600, completed_audit_window_secs: 86400 }
}

fn snapshot(active_count: u32) -> BoardSnapshot {
    BoardSnapshot {
        entries: Vec::new(),
        config: config(),
        active_count,
        stale_count: 0,
        conflict_count: 0,
        warnings: Vec::new(),
        file_ownership: Vec::new(),
    }
}

fn display_entry(ticket_id: u128, title: &str) -> BoardDisplayEntry {
    BoardDisplayEntry {
        entry_id: 1,
        ticket_id,
        title: title.to_string(),
        state: None,
        agent_id: "agent-a".to_string(),
        intent: "work".to_string(),
        status: "active".to_string(),
        heartbeat_age_secs: 0,
        owned_files: Vec::new(),
        handoff_reason: None,
        completed_at: None,
        session_id: None,
        worktree_path: None,
        branch: None,
    }
}

fn nanos(year: i32, month: u32, day: u32, hour: u32, minute: u32) -> i128 {
    let t = Utc.with_ymd_and_hms(year, month, day, hour, minute, 0).unwrap();
    t.timestamp() as i128 * 1_000_000_000
}

#[test]
fn human_board_render_includes_session_id() {
    let ticket_id = uuid::Uuid::new_v4().as_u128();
    let snapshot = snapshot(1);
    let mut entry = display_entry(ticket_id, "Session metadata");
    entry.session_id = Some("session-a".to_string());
    entry.worktree_path = Some("/tmp/worktree-a".to_string());
    entry.branch = Some("agent/metadata".to_string());
    let display = BoardDisplay { current_work: vec![entry], recommended_next: Vec::new(), actions: Vec::new() };

    let rendered = render_board_human(&snapshot, &display);

    assert!(rendered.contains("SESSION"));
    assert!(rendered.contains("session-a"));
}

#[test]
fn empty_board_renders_every_section_heading() {
    let rendered = render_board_human(
        &snapshot(0),
        &BoardDisplay { current_work: Vec::new(), recommended_next: Vec::new(), actions: Vec::new() },
    );
    assert_eq!(
        rendered,
        "Board: [0/3 active] [0 stale] [0 conflict]\n\nCurrent Work:\n  (no active board entries)\n\nNext Up:\n  (no unblocked tickets ready right now)\n"
    );
}

#[test]
fn narrow_table_row_is_padded_to_its_columns() {
    let entry = display_entry(0x0123_4567_89ab_cdef_0000_0000_0000_0000, "Fix it");
    let display = BoardDisplay {
        current_work: vec![entry],
        recommended_next: Vec::new(),
        actions: vec!["Heartbeat".to_string(), "Clean".to_string()],
    };
    let mut snap = snapshot(1);
    snap.stale_count = 2;
    snap.warnings = vec!["careful".to_string()];
    snap.file_ownership = vec![("src/a.rs".to_string(), vec!["agent-a".to_string(), "agent-b".to_string()])];
    let rendered = render_board_human(&snap, &display);
    let expected_row = format!(
        "  {:<10}  {:<8}  {:<34}  {:<18}  {:<20}  {:>10}\n",
        "active", "01234567", "Fix it", "agent-a", "work", 0
    );
    let expected = format!(
        "Board: [1/3 active] [2 stale \u{26a0}] [0 conflict]\n\nImmediate Actions:\n  1. Heartbeat\n  2. Clean\n\nCurrent Work:\n  {:<10}  {:<8}  {:<34}  {:<18}  {:<20}  {:>10}\n  {}\n{}\nNext Up:\n  (no unblocked tickets ready right now)\n\n  \u{26a0}  careful\n\nFile Ownership:\n  src/a.rs  \u{2192}  agent-a, agent-b\n",
        "STATUS", "TICKET", "TITLE", "AGENT", "INTENT", "HB AGE", "-".repeat(112), expected_row
    );
    assert_eq!(rendered, expected);
}

#[test]
fn wide_table_shows_worktree_leaf_and_truncates_long_fields() {
    let mut entry = display_entry(0xffff_ffff_0000_0000_0000_0000_0000_0000, "A title that is far too long for the column");
    entry.branch = Some("feature/x".to_string());
    entry.worktree_path = Some("C:\\work\\trees\\alpha".to_string());
    entry.heartbeat_age_secs = 42;
    let display = BoardDisplay { current_work: vec![entry], recommended_next: Vec::new(), actions: Vec::new() };
    let rendered = render_board_human(&snapshot(1), &display);
    let expected_row = format!(
        "  {:<10}  {:<8}  {:<24}  {:<14}  {:<16}  {:<16}  {:<16}  {:<18}  {:>6}\n",
        "active", "ffffffff", "A title that is far too\u{2026}", "agent-a", "", "feature/x", "alpha", "work", 42
    );
    assert!(rendered.contains(&expected_row), "{rendered}");
    assert!(rendered.contains(&format!("  {}\n", "-".repeat(150))));
}

#[test]
fn truncate_field_cuts_bytes_and_appends_ellipsis() {
    assert_eq!(truncate_field("abcdef", 6), "abcdef");
    assert_eq!(truncate_field("abcdefg", 6), "abcde\u{2026}");
    assert_eq!(truncate_field("h\u{e9}llo world", 6), "h\u{e9}ll\u{2026}");
}

#[test]
fn worktree_indicator_keeps_the_last_path_component() {
    assert_eq!(short_worktree_indicator("/tmp/worktree-a"), "worktree-a");
    assert_eq!(short_worktree_indicator("a\\b\\c"), "c");
    assert_eq!(short_worktree_indicator("plain"), "plain");
    assert_eq!(short_worktree_indicator("trailing/"), "");
}

#[test]
fn short_ticket_id_is_first_eight_hex_digits() {
    let id = uuid::Uuid::parse_str("3f2a9c10-0000-4000-8000-000000000000").unwrap().as_u128();
    assert_eq!(short_ticket_id(id), "3f2a9c10");
    assert_eq!(short_ticket_id(5), "00000000");
}

#[test]
fn entry_status_marks_expired_active_entries_stale() {
    let entry = BoardEntry {
        ticket_id: 1,
        agent_id: "a".to_string(),
        status: BoardEntryStatus::Active,
        intent: "i".to_string(),
        last_heartbeat: 0,
    };
    assert_eq!(entry_status(&entry, &config(), 3600), "active");
    assert_eq!(entry_status(&entry, &config(), 3601), "stale");
    let conflict = BoardEntry { status: BoardEntryStatus::Conflict, ..entry };
    assert_eq!(entry_status(&conflict, &config(), 99_999), "conflict");
}

#[test]
fn heartbeat_age_counts_whole_seconds_and_never_goes_negative() {
    let entry = BoardEntry {
        ticket_id: 1,
        agent_id: "a".to_string(),
        status: BoardEntryStatus::Active,
        intent: "i".to_string(),
        last_heartbeat: 10_000_000_000,
    };
    assert_eq!(heartbeat_age_secs(&entry, 12_999_999_999), 2);
    assert_eq!(heartbeat_age_secs(&entry, 10_500_000_000), 0);
    assert_eq!(heartbeat_age_secs(&entry, 1_000_000_000), 0);
}

#[test]
fn warning_suffix_only_for_nonzero_counts() {
    assert_eq!(warning_suffix(0), "");
    assert_eq!(warning_suffix(3), " \u{26a0}");
}

#[test]
fn completed_at_matches_chrono_formatting() {
    for (y, mo, d, h, mi) in [(2026, 3, 7, 9, 5), (1999, 12, 31, 23, 59), (1969, 7, 20, 20, 17)] {
        let t = nanos(y, mo, d, h, mi);
        let expected = Utc.timestamp_nanos(t as i64).format("%Y-%m-%d %H:%M").to_string();
        assert_eq!(format_completed_at(Some(t)), expected);
    }
    assert_eq!(format_completed_at(Some(nanos(2026, 3, 7, 9, 5) + 999_999_999)), "2026-03-07 09:05");
    assert_eq!(format_completed_at(None), "-");
}

#[test]
fn history_view_lists_completions_in_window() {
    let mut entry = display_entry(0xabcd_ef01_0000_0000_0000_0000_0000_0000, "Done work");
    entry.completed_at = Some(nanos(2026, 1, 2, 3, 4));
    let snap = BoardHistorySnapshot { config: config(), completed_count: 1, hidden_completed_count: 2 };
    let rendered = render_board_history_human(&snap, &BoardHistoryDisplay { entries: vec![entry] });
    let expected = format!(
        "\nBoard History: [1 completion in window]\nWindow: last 86400 seconds\nOlder hidden: 2 completions outside the history window\n\nCompleted Work:\n  {:<8}  {:<34}  {:<18}  {:<20}  {:<36}\n  {}\n  {:<8}  {:<34}  {:<18}  {:<20}  {:<36}\n",
        "TICKET", "TITLE", "AGENT", "COMPLETED", "HANDOFF", "-".repeat(112),
        "abcdef01", "Done work", "agent-a", "2026-01-02 03:04", "handoff reason not recorded"
    );
    assert_eq!(rendered, expected);
}

#[test]
fn empty_history_with_unbounded_window() {
    let snap = BoardHistorySnapshot {
        config: BoardConfig { max_wip: 3, stale_after_secs: 3600, completed_audit_window_secs: 0 },
        completed_count: 0,
        hidden_completed_count: 0,
    };
    let rendered = render_board_history_human(&snap, &BoardHistoryDisplay { entries: Vec::new() });
    assert_eq!(
        rendered,
        "\nBoard History: [0 completions in window]\nWindow: all recorded completion history\n\nCompleted Work:\n  (no completed board history in the current window)\n"
    );
}
