use ticket::next::{
    apply_next_limit, blocked_dependent_count, candidate_rows, collect_board_filtered_candidates,
    ensure_next_root_exists, intersect_scopes, tree_kind_payload, TreeKind,
};
use ticket::workflow::board::{BoardConfig, BoardEntry, BoardEntryStatus, BoardSnapshot};
use ticket::workflow::{EdgeRecord, IndexedTicket, WorkflowModel};

fn ticket(id: u128, title: &str, state: &str, created_at: i128) -> IndexedTicket {
    IndexedTicket {
        id,
        type_id: "tracker-improvement".to_string(),
        title: Some(title.to_string()),
        state: Some(state.to_string()),
        created_at,
    }
}

fn depends(from: u128, to: u128) -> EdgeRecord {
    EdgeRecord { from, to, kind: "depends_on".to_string() }
}

fn states() -> Vec<(String, usize)> {
    vec![
        ("open".to_string(), 0usize),
        ("planned".to_string(), 1usize),
        ("in-implementation".to_string(), 2usize),
        ("in-review".to_string(), 3usize),
        ("done".to_string(), 4usize),
    ]
}

fn model(tickets: Vec<IndexedTicket>, edges: Vec<EdgeRecord>) -> WorkflowModel {
    WorkflowModel::build_from_parts(tickets, edges, states(), Vec::new(), Vec::new(), Vec::new())
}

fn board_entry(ticket_id: u128, status: BoardEntryStatus) -> BoardEntry {
    BoardEntry {
        ticket_id,
        agent_id: "agent-a".to_string(),
        status,
        intent: "working".to_string(),
        last_heartbeat: 0,
    }
}

#[test]
fn intersect_scopes_keeps_common_ids_in_primary_order() {
    let both = intersect_scopes(Some(vec![3, 1, 2]), Some(&vec![2, 3]));
    assert_eq!(both, Some(vec![3, 2]));
    assert_eq!(intersect_scopes(Some(vec![5]), None), Some(vec![5]));
    assert_eq!(intersect_scopes(None, Some(&vec![7, 8])), Some(vec![7, 8]));
    assert_eq!(intersect_scopes(None, None), None);
    assert_eq!(intersect_scopes(Some(vec![1]), Some(&vec![2])), Some(Vec::new()));
}

#[test]
fn next_limit_caps_explicit_limits_and_defaults_to_twenty_without_root() {
    let all: Vec<u128> = (0..150u128).collect();

    let mut capped = all.clone();
    apply_next_limit(&mut capped, Some(500), false);
    assert_eq!(capped.len(), 100);

    let mut explicit = all.clone();
    apply_next_limit(&mut explicit, Some(3), true);
    assert_eq!(explicit, vec![0, 1, 2]);

    let mut unrooted = all.clone();
    apply_next_limit(&mut unrooted, None, false);
    assert_eq!(unrooted.len(), 20);
    assert_eq!(unrooted[19], 19);

    let mut rooted = all.clone();
    apply_next_limit(&mut rooted, None, true);
    assert_eq!(rooted.len(), 150);
}

#[test]
fn next_root_must_be_a_known_ticket() {
    let m = model(vec![ticket(0x10, "Root", "planned", 1)], Vec::new());
    assert_eq!(ensure_next_root_exists(&m, Some(0x10)), Ok(()));
    assert_eq!(ensure_next_root_exists(&m, Some(0x99)), Err(0x99));
    assert_eq!(ensure_next_root_exists(&m, None), Ok(()));
}

#[test]
fn root_scope_limits_candidates_to_remaining_blockers() {
    let root = 0x1;
    let blocker = 0x2;
    let unrelated = 0x3;
    let m = model(
        vec![
            ticket(root, "Root ticket to unblock", "planned", 10),
            ticket(blocker, "Scoped blocker", "planned", 20),
            ticket(unrelated, "Unrelated ready work", "planned", 30),
        ],
        vec![depends(root, blocker)],
    );
    let everything = collect_board_filtered_candidates(&m, None, None, None);
    assert_eq!(everything.candidates.len(), 2);
    assert!(everything.candidates.contains(&blocker));
    assert!(everything.candidates.contains(&unrelated));
    assert_eq!(everything.frontier_count, 2);

    let scope = vec![blocker];
    let scoped = collect_board_filtered_candidates(&m, None, Some(&scope), None);
    assert_eq!(scoped.candidates, vec![blocker]);
    assert_eq!(scoped.frontier_count, 1);
    assert!(scoped.excluded_by_board.is_empty());
    assert!(scoped.warnings.is_empty());

    let filtered = collect_board_filtered_candidates(&m, Some("Unrelated"), None, None);
    assert_eq!(filtered.candidates, vec![unrelated]);
}

#[test]
fn board_held_candidates_move_to_excluded_by_board() {
    let held = 0xa;
    let free = 0xb;
    let m = model(
        vec![ticket(held, "Held work", "planned", 1), ticket(free, "Free work", "planned", 2)],
        Vec::new(),
    );
    let snapshot = BoardSnapshot {
        entries: vec![board_entry(held, BoardEntryStatus::Active)],
        config: BoardConfig { max_wip: 5, stale_after_secs: 3600, completed_audit_window_secs: 3600 },
        active_count: 1,
        stale_count: 0,
        conflict_count: 0,
        warnings: Vec::new(),
        file_ownership: Vec::new(),
    };
    let result = collect_board_filtered_candidates(&m, None, None, Some(&snapshot));
    assert_eq!(result.candidates, vec![free]);
    assert_eq!(result.frontier_count, 1);
    assert_eq!(result.excluded_by_board.len(), 1);
    assert_eq!(result.excluded_by_board[0].ticket_id, held);
    assert_eq!(result.excluded_by_board[0].status, "active");
}

#[test]
fn blocked_dependents_count_those_still_waiting_after_the_root() {
    let root = 0x1;
    let freed = 0x2;
    let still_blocked = 0x3;
    let other = 0x4;
    let m = model(
        vec![
            ticket(root, "Root", "planned", 1),
            ticket(freed, "Freed", "planned", 2),
            ticket(still_blocked, "Still blocked", "planned", 3),
            ticket(other, "Other blocker", "planned", 4),
        ],
        vec![depends(freed, root), depends(still_blocked, root), depends(still_blocked, other)],
    );
    let dependents = m.reverse_dependents(root);
    assert_eq!(dependents.len(), 2);
    assert_eq!(blocked_dependent_count(&m, &dependents, &vec![root]), 1);
    assert_eq!(blocked_dependent_count(&m, &dependents, &Vec::new()), 2);
}

#[test]
fn candidate_rows_rank_by_position_and_skip_unknown_ids() {
    let a = 0x1;
    let b = 0x2;
    let m = model(
        vec![ticket(a, "First", "planned", 1), ticket(b, "Second", "planned", 2)],
        vec![depends(b, a)],
    );
    let rows = candidate_rows(&m, &vec![a, 0x77, b], &Vec::new());
    assert_eq!(rows.len(), 2);
    assert_eq!(rows[0].rank, 1);
    assert_eq!(rows[0].ticket.id, a);
    assert_eq!(rows[0].priority, "none");
    assert_eq!(rows[0].dependee_count, 1);
    assert_eq!(rows[0].dependency_count, 0);
    assert_eq!(rows[1].rank, 3);
    assert_eq!(rows[1].ticket.id, b);
    assert_eq!(rows[1].dependency_count, 1);
    assert_eq!(rows[1].remaining_blocker_count, 1);
    let satisfied = candidate_rows(&m, &vec![b], &vec![a]);
    assert_eq!(satisfied[0].remaining_blocker_count, 0);
}

#[test]
fn tree_payloads_report_frontiers_and_dependent_counts() {
    let root = 0x1;
    let freed = 0x2;
    let still_blocked = 0x3;
    let other = 0x4;
    let m = model(
        vec![
            ticket(root, "Root", "planned", 1),
            ticket(freed, "Freed", "planned", 2),
            ticket(still_blocked, "Still blocked", "planned", 3),
            ticket(other, "Other blocker", "planned", 4),
        ],
        vec![depends(freed, root), depends(still_blocked, root), depends(still_blocked, other)],
    );
    let unlock = tree_kind_payload(&m, root, TreeKind::UnblockedBy).unwrap();
    assert_eq!(unlock.tree.ticket_id, root);
    assert_eq!(unlock.kind_label, "unblocked-by");
    assert_eq!(unlock.reachable_dependents, Some(2));
    assert_eq!(unlock.blocked_dependents, Some(1));
    assert_eq!(unlock.satisfied_ids, Some(vec![root]));
    assert_eq!(unlock.frontier_ids, unlock.tree.frontier_leaf_ids);

    let blockers = tree_kind_payload(&m, still_blocked, TreeKind::Blockers).unwrap();
    assert_eq!(blockers.kind_label, "blockers");
    assert_eq!(blockers.reachable_dependents, None);
    assert_eq!(blockers.frontier_ids.len(), 2);
    assert!(blockers.frontier_ids.contains(&root));
    assert!(blockers.frontier_ids.contains(&other));

    assert!(tree_kind_payload(&m, 0x99, TreeKind::Blockers).is_none());
}
