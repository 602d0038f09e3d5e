use chrono::{TimeZone, Utc};
use ticket::effort::{effort_panics_on, parse_effort};
use ticket::workflow::board::{apply_board_filter, BoardConfig, BoardEntry, BoardEntryStatus, BoardSnapshot};
use ticket::workflow::{EdgeRecord, IndexedTicket, WorkflowFacts, WorkflowModel};

fn at(y: i32, mo: u32, d: u32, h: u32, mi: u32) -> i128 {
    Utc.with_ymd_and_hms(y, mo, d, h, mi, 0).unwrap().timestamp_nanos_opt().unwrap() as i128
}

fn ticket(id: u128, title: &str, state: &str, created_at: i128) -> IndexedTicket {
    IndexedTicket {
        id,
        type_id: "tracker-improvement".to_string(),
        title: Some(title.to_string()),
        state: Some(state.to_string()),
        created_at,
    }
}

fn depends(from: u128, to: u128) -> EdgeRecord {
    EdgeRecord { from, to, kind: "depends_on".to_string() }
}

fn states() -> Vec<(String, usize)> {
    vec![
        ("open".to_string(), 0usize),
        ("planned".to_string(), 1usize),
        ("in-implementation".to_string(), 2usize),
        ("in-review".to_string(), 3usize),
        ("done".to_string(), 4usize),
    ]
}

fn build_model(
    tickets: Vec<IndexedTicket>,
    edges: Vec<EdgeRecord>,
    priorities: Vec<(u128, String)>,
) -> WorkflowModel {
    build_model_with_facts(tickets, edges, priorities, Vec::new(), Vec::new())
}

fn build_model_with_facts(
    tickets: Vec<IndexedTicket>,
    edges: Vec<EdgeRecord>,
    priorities: Vec<(u128, String)>,
    efforts: Vec<(u128, u64)>,
    facts: Vec<(u128, WorkflowFacts)>,
) -> WorkflowModel {
    WorkflowModel::build_from_parts(tickets, edges, states(), priorities, efforts, facts)
}

#[test]
fn sort_candidates_prefers_newer_tickets_before_older_ones_without_pressure() {
    let older = ticket(0x11, "Older ticket", "planned", at(2026, 5, 16, 12, 0));
    let newer = ticket(0x22, "Newer ticket", "planned", at(2026, 5, 17, 12, 0));
    let mut candidates = vec![older.id, newer.id];
    let model = build_model(
        vec![older.duplicate(), newer.duplicate()],
        Vec::new(),
        vec![(older.id, "high".to_string()), (newer.id, "high".to_string())],
    );
    model.sort_candidate_ids(&mut candidates);
    assert_eq!(candidates, vec![newer.id, older.id]);
}

#[test]
fn sort_candidates_prefers_more_dependees_before_newer_tickets_without_pressure() {
    let older = ticket(0x31, "Older blocker", "planned", at(2026, 5, 16, 12, 0));
    let newer = ticket(0x32, "Newer blocker", "planned", at(2026, 5, 17, 12, 0));
    let dependent_one = ticket(0x33, "Dependent one", "open", at(2026, 5, 18, 12, 0));
    let dependent_two = ticket(0x34, "Dependent two", "open", at(2026, 5, 18, 12, 30));
    let mut candidates = vec![newer.id, older.id];
    let model = build_model(
        vec![older.duplicate(), newer.duplicate(), dependent_one.duplicate(), dependent_two.duplicate()],
        vec![depends(dependent_one.id, older.id), depends(dependent_two.id, older.id)],
        vec![(older.id, "high".to_string()), (newer.id, "high".to_string())],
    );
    model.sort_candidate_ids(&mut candidates);
    assert_eq!(candidates, vec![older.id, newer.id]);
}

#[test]
fn sort_candidates_prefers_more_recent_actionable_time_before_creation_time() {
    let older_created = ticket(0x41, "Older created but recently actionable", "planned", at(2026, 5, 16, 12, 0));
    let newer_created = ticket(0x42, "Newer created but stale actionable", "planned", at(2026, 5, 18, 12, 0));
    let recent_actionable_at = at(2026, 5, 19, 12, 0);
    let stale_actionable_at = at(2026, 5, 17, 12, 0);
    let mut candidates = vec![newer_created.id, older_created.id];
    let model = build_model_with_facts(
        vec![older_created.duplicate(), newer_created.duplicate()],
        Vec::new(),
        vec![(older_created.id, "high".to_string()), (newer_created.id, "high".to_string())],
        Vec::new(),
        vec![
            (
                older_created.id,
                WorkflowFacts {
                    unresolved_dependency_count: 0,
                    became_actionable_at: Some(recent_actionable_at),
                    last_blocker_progress_at: None,
                },
            ),
            (
                newer_created.id,
                WorkflowFacts {
                    unresolved_dependency_count: 0,
                    became_actionable_at: Some(stale_actionable_at),
                    last_blocker_progress_at: None,
                },
            ),
        ],
    );
    model.sort_candidate_ids(&mut candidates);
    assert_eq!(candidates, vec![older_created.id, newer_created.id]);
    let metrics = model.metrics(&older_created.id).expect("metrics");
    assert_eq!(metrics.became_actionable_at, Some(recent_actionable_at));
}

#[test]
fn convergence_pressure_promotes_earlier_state_prerequisite() {
    let prerequisite = ticket(0x51, "Lagging prerequisite", "open", at(2026, 5, 16, 12, 0));
    let unrelated = ticket(0x52, "Unrelated ready work", "planned", at(2026, 5, 17, 12, 0));
    let dependent = ticket(0x53, "Advanced dependent", "in-review", at(2026, 5, 18, 12, 0));
    let mut candidates = vec![unrelated.id, prerequisite.id];
    let model = build_model(
        vec![prerequisite.duplicate(), unrelated.duplicate(), dependent.duplicate()],
        vec![depends(dependent.id, prerequisite.id)],
        vec![(prerequisite.id, "high".to_string()), (unrelated.id, "high".to_string())],
    );
    model.sort_candidate_ids(&mut candidates);
    assert_eq!(candidates, vec![prerequisite.id, unrelated.id]);
    let metrics = model.metrics(&prerequisite.id).expect("metrics");
    assert_eq!(metrics.affected_reverse_dependent_reach, 1);
    assert_eq!(metrics.max_affected_dependent_state.as_deref(), Some("in-review"));
    assert_eq!(metrics.dependency_state_gap, 3);
}

#[test]
fn convergence_pressure_still_beats_recently_actionable_unrelated_work() {
    let prerequisite = ticket(0x61, "Lagging prerequisite", "open", at(2026, 5, 16, 12, 0));
    let recently_actionable = ticket(0x62, "Recently actionable unrelated", "planned", at(2026, 5, 18, 12, 0));
    let dependent = ticket(0x63, "Advanced dependent", "in-review", at(2026, 5, 18, 13, 0));
    let now = at(2026, 5, 18, 14, 0);
    let mut candidates = vec![recently_actionable.id, prerequisite.id];
    let model = build_model_with_facts(
        vec![prerequisite.duplicate(), recently_actionable.duplicate(), dependent.duplicate()],
        vec![depends(dependent.id, prerequisite.id)],
        vec![(prerequisite.id, "high".to_string()), (recently_actionable.id, "high".to_string())],
        Vec::new(),
        vec![(
            recently_actionable.id,
            WorkflowFacts {
                unresolved_dependency_count: 0,
                became_actionable_at: Some(now),
                last_blocker_progress_at: None,
            },
        )],
    );
    model.sort_candidate_ids(&mut candidates);
    assert_eq!(candidates, vec![prerequisite.id, recently_actionable.id]);
}

#[test]
fn reverse_dependents_collect_transitive_dependents() {
    let root = ticket(0x71, "Root", "planned", at(2026, 5, 16, 12, 0));
    let direct = ticket(0x72, "Direct dependent", "open", at(2026, 5, 16, 12, 30));
    let transitive = ticket(0x73, "Transitive dependent", "open", at(2026, 5, 16, 13, 0));
    let model = build_model(
        vec![root.duplicate(), direct.duplicate(), transitive.duplicate()],
        vec![depends(direct.id, root.id), depends(transitive.id, direct.id)],
        Vec::new(),
    );
    let dependents = model.reverse_dependents(root.id);
    assert!(dependents.contains(&direct.id));
    assert!(dependents.contains(&transitive.id));
}

#[test]
fn dependency_state_inversions_capture_more_advanced_dependents() {
    let prerequisite = ticket(0x81, "Lagging prerequisite", "planned", at(2026, 5, 16, 12, 0));
    let dependent = ticket(0x82, "Advanced dependent", "in-review", at(2026, 5, 17, 12, 0));
    let model = build_model(
        vec![prerequisite.duplicate(), dependent.duplicate()],
        vec![depends(dependent.id, prerequisite.id)],
        Vec::new(),
    );
    let inversions = model.dependency_state_inversions(&dependent.id).expect("dependency inversion");
    assert_eq!(inversions.len(), 1);
    assert_eq!(inversions[0].prerequisite_id, prerequisite.id);
    assert_eq!(inversions[0].dependent_id, dependent.id);
    assert_eq!(inversions[0].dependency_state_gap, 2);
    assert_eq!(inversions[0].affected_reverse_dependent_reach, 1);
}

#[test]
fn blocker_tree_preserves_nested_children_and_orders_closest_frontier_first() {
    let root = ticket(0x91, "Root", "planned", at(2026, 5, 16, 12, 0));
    let direct_leaf = ticket(0x92, "Direct frontier leaf", "planned", at(2026, 5, 16, 12, 5));
    let nested_parent = ticket(0x93, "Nested parent", "planned", at(2026, 5, 16, 12, 10));
    let nested_leaf = ticket(0x94, "Nested frontier leaf", "planned", at(2026, 5, 16, 12, 15));
    let model = build_model(
        vec![root.duplicate(), direct_leaf.duplicate(), nested_parent.duplicate(), nested_leaf.duplicate()],
        vec![
            depends(root.id, nested_parent.id),
            depends(root.id, direct_leaf.id),
            depends(nested_parent.id, nested_leaf.id),
        ],
        Vec::new(),
    );
    let tree = model.blocker_tree(root.id).expect("blocker tree");
    assert_eq!(tree.remaining_blocker_count, 2);
    assert_eq!(
        tree.children.iter().map(|child| child.ticket_id).collect::<Vec<_>>(),
        vec![direct_leaf.id, nested_parent.id]
    );
    assert_eq!(tree.frontier_leaf_ids, vec![direct_leaf.id, nested_leaf.id]);
    assert_eq!(tree.unresolved_frontier_leaf_count, 2);
    assert_eq!(tree.blocker_distance, 1);
    assert!(tree.children[0].is_frontier);
    assert!(!tree.children[1].is_frontier);
    assert_eq!(tree.children[1].children.len(), 1);
    assert_eq!(tree.children[1].children[0].ticket_id, nested_leaf.id);
    assert!(tree.children[1].children[0].is_frontier);
}

fn board_entry(ticket_id: u128, status: BoardEntryStatus) -> BoardEntry {
    BoardEntry {
        ticket_id,
        agent_id: "parity-agent".to_string(),
        status,
        intent: "in flight".to_string(),
        last_heartbeat: 0,
    }
}

#[test]
fn apply_board_filter_excludes_tracked_candidates_and_surfaces_warnings() {
    let active_candidate: u128 = 0xa1;
    let free_candidate: u128 = 0xa2;
    let snapshot = BoardSnapshot {
        entries: vec![board_entry(active_candidate, BoardEntryStatus::Active)],
        config: BoardConfig { max_wip: 1, stale_after_secs: 3600, completed_audit_window_secs: 3600 },
        active_count: 1,
        stale_count: 0,
        conflict_count: 0,
        warnings: Vec::new(),
        file_ownership: Vec::new(),
    };
    let result = apply_board_filter(vec![active_candidate, free_candidate], Some(&snapshot), false);
    assert_eq!(result.candidates, vec![free_candidate]);
    assert_eq!(result.excluded_by_board.len(), 1);
    assert_eq!(result.excluded_by_board[0].ticket_id, active_candidate);
    assert_eq!(result.excluded_by_board[0].agent_id, "parity-agent");
    assert_eq!(result.excluded_by_board[0].status, "active");
    assert!(
        result.warnings.iter().any(|warning| warning.contains("WIP limit reached")),
        "expected WIP warning, got {:?}",
        result.warnings
    );
}

#[test]
fn apply_board_filter_respects_skip_board_but_keeps_warnings() {
    let tracked_candidate: u128 = 0xb1;
    let snapshot = BoardSnapshot {
        entries: vec![board_entry(tracked_candidate, BoardEntryStatus::Stale)],
        config: BoardConfig { max_wip: 5, stale_after_secs: 3600, completed_audit_window_secs: 3600 },
        active_count: 0,
        stale_count: 1,
        conflict_count: 0,
        warnings: Vec::new(),
        file_ownership: Vec::new(),
    };
    let result = apply_board_filter(vec![tracked_candidate], Some(&snapshot), true);
    assert_eq!(result.candidates, vec![tracked_candidate]);
    assert!(result.excluded_by_board.is_empty());
    assert!(
        result.warnings.iter().any(|warning| warning.contains("stale board entry")),
        "expected stale warning, got {:?}",
        result.warnings
    );
}

#[test]
fn sort_candidates_prefers_lower_effort_before_newer_tickets() {
    let lower_effort = ticket(0xc1, "Lower effort ticket", "planned", at(2026, 5, 16, 12, 0));
    let higher_effort = ticket(0xc2, "Higher effort ticket", "planned", at(2026, 5, 17, 12, 0));
    let mut candidates = vec![higher_effort.id, lower_effort.id];
    let model = build_model_with_facts(
        vec![lower_effort.duplicate(), higher_effort.duplicate()],
        Vec::new(),
        vec![(lower_effort.id, "high".to_string()), (higher_effort.id, "high".to_string())],
        vec![(lower_effort.id, 1_200_u64), (higher_effort.id, 8_000_u64)],
        Vec::new(),
    );
    model.sort_candidate_ids(&mut candidates);
    assert_eq!(candidates, vec![lower_effort.id, higher_effort.id]);
}

#[test]
fn parse_effort_accepts_numeric_token_budgets() {
    assert_eq!(parse_effort("1500"), Some(1_500));
    assert_eq!(parse_effort("2.5k tokens"), Some(2_500));
    assert_eq!(parse_effort("budget: 1_250"), Some(1_250));
    assert_eq!(parse_effort("unknown"), None);
}

#[test]
fn unlock_tree_marks_actionable_parents_as_frontier_and_preserves_children() {
    let root = ticket(0xd1, "Satisfied prerequisite", "done", at(2026, 5, 16, 12, 0));
    let actionable_parent = ticket(0xd2, "Actionable parent", "planned", at(2026, 5, 16, 12, 5));
    let blocked_parent = ticket(0xd3, "Blocked parent", "planned", at(2026, 5, 16, 12, 10));
    let external_blocker = ticket(0xd4, "External blocker", "planned", at(2026, 5, 16, 12, 15));
    let grandchild = ticket(0xd5, "Grandchild", "open", at(2026, 5, 16, 12, 20));
    let model = build_model(
        vec![
            root.duplicate(),
            actionable_parent.duplicate(),
            blocked_parent.duplicate(),
            external_blocker.duplicate(),
            grandchild.duplicate(),
        ],
        vec![
            depends(actionable_parent.id, root.id),
            depends(blocked_parent.id, root.id),
            depends(blocked_parent.id, external_blocker.id),
            depends(grandchild.id, actionable_parent.id),
        ],
        Vec::new(),
    );
    let tree = model.unlock_tree(root.id).expect("unlock tree");
    assert_eq!(
        tree.children.iter().map(|child| child.ticket_id).collect::<Vec<_>>(),
        vec![actionable_parent.id, blocked_parent.id]
    );
    let actionable = &tree.children[0];
    assert!(actionable.is_frontier);
    assert_eq!(actionable.frontier_leaf_ids, vec![actionable_parent.id]);
    assert_eq!(actionable.blocker_distance, 0);
    assert_eq!(actionable.children.len(), 1);
    assert_eq!(actionable.children[0].ticket_id, grandchild.id);
    let blocked = &tree.children[1];
    assert!(!blocked.is_frontier);
    assert_eq!(blocked.remaining_blocker_count, 1);
    assert_eq!(blocked.frontier_leaf_ids, vec![blocked_parent.id]);
    assert_eq!(blocked.blocker_distance, 1);
    assert_eq!(model.unlock_frontier_leaf_ids(root.id), tree.frontier_leaf_ids);
    assert_eq!(model.blocker_frontier_leaf_ids(root.id), vec![root.id]);
}

#[test]
fn plain_numbers_read_back() {
    for n in [0u64, 7, 10, 1500, 987654321, u64::MAX] {
        assert_eq!(parse_effort(&n.to_string()), Some(n));
    }
}

#[test]
fn unicode_white_space_around_an_effort_is_trimmed() {
    assert_eq!(parse_effort("\u{a0}12"), Some(12));
    assert_eq!(parse_effort("\u{3000}3k\u{2003}"), Some(3_000));
    assert!(!effort_panics_on("\u{a0}12"));
}

#[test]
fn non_ascii_before_the_number_shifts_the_bytes_read() {
    assert_eq!(parse_effort("éé12"), None);
    assert_eq!(parse_effort("é+12k"), Some(1_000));
    assert_eq!(parse_effort("é-12"), Some(0));
    assert_eq!(parse_effort("é.12"), Some(0));
    assert_eq!(parse_effort("éééinf999"), Some(u64::MAX));
    assert!(!effort_panics_on("éé12"));
}

#[test]
fn a_byte_offset_inside_a_character_is_refused() {
    assert!(effort_panics_on("é5"));
    assert!(effort_panics_on("éé.5"));
    assert!(!effort_panics_on("2.5k tokens"));
    assert!(!effort_panics_on("no digits, ünicode"));
}
