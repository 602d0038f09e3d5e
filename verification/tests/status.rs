use ticket::status::{
    dependency_metadata, done_ticket_ids, filtered_tickets, parallel_groups, status_sections, status_summary,
    unresolved_blockers, uuid_string,
};
use ticket::workflow::{EdgeRecord, IndexedTicket};

fn ticket(id: u128, title: Option<&str>, state: Option<&str>, type_id: &str) -> IndexedTicket {
    IndexedTicket {
        id,
        type_id: type_id.to_string(),
        title: title.map(str::to_string),
        state: state.map(str::to_string),
        created_at: 0,
    }
}

fn edge(from: u128, to: u128, kind: &str) -> EdgeRecord {
    EdgeRecord { from, to, kind: kind.to_string() }
}

fn sample() -> Vec<IndexedTicket> {
    vec![
        ticket(1, Some("Fix login"), Some("open"), "bug"),
        ticket(2, Some("Build API"), Some("in-implementation"), "feature"),
        ticket(3, Some("Old work"), Some("done"), "bug"),
        ticket(4, Some("Paused idea"), Some("on-hold"), "feature"),
        ticket(5, Some("Needs API"), None, "feature"),
        ticket(6, None, Some("planned"), "bug"),
        ticket(7, Some("Fix logout"), Some("open"), "feature"),
    ]
}

#[test]
fn filter_keeps_titles_with_the_prefix() {
    let kept = filtered_tickets(sample(), Some("Fix"));
    assert_eq!(kept.iter().map(|t| t.id).collect::<Vec<_>>(), vec![1, 7]);
    assert_eq!(filtered_tickets(sample(), None).len(), 7);
    assert_eq!(filtered_tickets(sample(), Some("")).len(), 7);
}

#[test]
fn done_ids_are_finished_tickets() {
    let mut tickets = sample();
    tickets.push(ticket(8, None, Some("cancelled"), "bug"));
    assert_eq!(done_ticket_ids(&tickets), vec![3, 8]);
}

#[test]
fn blockers_are_unfinished_dependencies() {
    let edges = vec![edge(5, 2, "depends_on"), edge(5, 3, "depends_on"), edge(1, 7, "relates"), edge(5, 9, "depends_on")];
    let table = unresolved_blockers(&edges, &[3]);
    assert_eq!(table, vec![(5, vec![2, 9])]);
}

#[test]
fn sections_sort_tickets_by_state_and_blockers() {
    let tickets = sample();
    let table = unresolved_blockers(&[edge(5, 2, "depends_on")], &done_ticket_ids(&tickets));
    let sections = status_sections(&tickets, &table, true);
    assert_eq!(sections.total, 7);
    assert_eq!(sections.done_count, 1);
    assert_eq!(sections.active.iter().map(|e| e.id).collect::<Vec<_>>(), vec![2, 6]);
    assert_eq!(sections.ready.iter().map(|e| e.id).collect::<Vec<_>>(), vec![1, 7]);
    assert_eq!(sections.blocked.iter().map(|e| e.id).collect::<Vec<_>>(), vec![4, 5]);
    assert!(sections.blocked[0].waiting_on.is_empty());
    assert_eq!(sections.blocked[1].state, "open");
    assert_eq!(sections.blocked[1].waiting_on.len(), 1);
    assert_eq!(sections.blocked[1].waiting_on[0].id, 2);
    assert_eq!(sections.blocked[1].waiting_on[0].title, "Build API");
    assert_eq!(sections.blocked[1].waiting_on[0].state, "in-implementation");
    assert_eq!(sections.ready[0].component, "bug");
    let summary = status_summary(&sections, true);
    assert_eq!((summary.total, summary.done, summary.active, summary.planned, summary.blocked), (7, 1, 2, 2, 2));
}

#[test]
fn hidden_blocked_work_is_still_counted() {
    let tickets = sample();
    let table = unresolved_blockers(&[edge(5, 2, "depends_on")], &done_ticket_ids(&tickets));
    let sections = status_sections(&tickets, &table, false);
    assert!(sections.blocked.is_empty());
    let summary = status_summary(&sections, false);
    assert_eq!(summary.blocked, 2);
}

#[test]
fn blocker_metadata_falls_back_to_uuid_and_unknown() {
    let tickets = sample();
    assert_eq!(dependency_metadata(2, &tickets), ("Build API".to_string(), "in-implementation".to_string()));
    let id: u128 = 0x0123_4567_89ab_cdef_0011_2233_4455_6677;
    assert_eq!(
        dependency_metadata(id, &tickets),
        ("01234567-89ab-cdef-0011-223344556677".to_string(), "unknown".to_string())
    );
    assert_eq!(dependency_metadata(6, &tickets).0, uuid::Uuid::from_u128(6).to_string());
}

#[test]
fn uuid_text_matches_the_uuid_crate() {
    for id in [0u128, 1, u128::MAX, 0xdead_beef_0000_4000_8000_0123_4567_89ab] {
        assert_eq!(uuid_string(id), uuid::Uuid::from_u128(id).to_string());
    }
}

#[test]
fn ready_work_groups_by_component() {
    let tickets = sample();
    let sections = status_sections(&tickets, &Vec::new(), false);
    let groups = parallel_groups(&sections.ready);
    assert_eq!(groups.len(), 2);
    assert_eq!(groups[0].component, "bug");
    assert_eq!(groups[0].tickets.iter().map(|e| e.id).collect::<Vec<_>>(), vec![1]);
    assert_eq!(groups[1].component, "feature");
    assert_eq!(groups[1].tickets.iter().map(|e| e.id).collect::<Vec<_>>(), vec![5, 7]);
}
