use ticket::scope::{collect_scope_ids, scope_depth, scope_selection, ScopeSelection};
use ticket::workflow::EdgeRecord;

fn edge(from: u128, to: u128, kind: &str) -> EdgeRecord {
    EdgeRecord { from, to, kind: kind.to_string() }
}

fn chain() -> Vec<EdgeRecord> {
    vec![
        edge(1, 2, "depends_on"),
        edge(2, 3, "linked"),
        edge(3, 4, "supersedes"),
        edge(5, 1, "depends_on"),
    ]
}

#[test]
fn scope_follows_depends_on_and_linked_edges_outwards() {
    assert_eq!(collect_scope_ids(1, 6, "out", &chain()), vec![1, 2, 3]);
}

#[test]
fn scope_stops_at_the_depth_limit() {
    assert_eq!(collect_scope_ids(1, 1, "out", &chain()), vec![1, 2]);
    assert_eq!(collect_scope_ids(1, 0, "out", &chain()), vec![1]);
}

#[test]
fn scope_walks_inbound_or_both_ways() {
    assert_eq!(collect_scope_ids(2, 6, "in", &chain()), vec![2, 1, 5]);
    assert_eq!(collect_scope_ids(1, 6, "both", &chain()), vec![1, 2, 5, 3]);
}

#[test]
fn scope_of_an_isolated_root_is_the_root() {
    assert_eq!(collect_scope_ids(9, 6, "out", &chain()), vec![9]);
}

#[test]
fn scope_selection_prefers_ids_then_all_then_root() {
    assert_eq!(scope_selection(true, true, true), ScopeSelection::Explicit);
    assert_eq!(scope_selection(false, true, true), ScopeSelection::All);
    assert_eq!(scope_selection(false, false, true), ScopeSelection::Root);
    assert_eq!(scope_selection(false, false, false), ScopeSelection::Missing);
}

#[test]
fn scope_depth_defaults_to_six_and_caps_at_eight() {
    assert_eq!(scope_depth(None), 6);
    assert_eq!(scope_depth(Some(3)), 3);
    assert_eq!(scope_depth(Some(20)), 8);
}
