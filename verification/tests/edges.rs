use ticket::edges::{dangling_candidates, render_ascii_tree, reverse_edge_label, TraversalNode};
use ticket::graph::GraphEdge;

const A: u128 = 0xaaaa_aaaa_u128 << 96;
const B: u128 = 0xbbbb_bbbb_u128 << 96;
const C: u128 = 0xcccc_cccc_u128 << 96;
const D: u128 = 0xdddd_dddd_u128 << 96;

fn edge(from: u128, to: u128, kind: &str) -> GraphEdge {
    GraphEdge { from, to, kind: kind.to_string() }
}

fn node(id: u128, title: Option<&str>, state: Option<&str>, depth: usize) -> TraversalNode {
    TraversalNode { id, title: title.map(str::to_string), state: state.map(str::to_string), depth }
}

fn diamond() -> (Vec<TraversalNode>, Vec<GraphEdge>) {
    let nodes = vec![node(A, Some("Root"), Some("open"), 0), node(B, Some("Left"), Some("planned"), 1), node(C, None, None, 1)];
    let edges = vec![edge(A, B, "depends_on"), edge(A, C, "depends_on"), edge(B, D, "relates"), edge(C, D, "depends_on")];
    (nodes, edges)
}

#[test]
fn subgraph_tree_marks_repeated_tickets() {
    let (nodes, edges) = diamond();
    let tree = render_ascii_tree(A, &nodes, &edges, false);
    assert_eq!(
        tree,
        "Root (aaaaaaaa) [open]\n\
         \u{251c}\u{2500}\u{2500} depends_on \u{2192} Left (bbbbbbbb) [planned]\n\
         \u{2502}   \u{2514}\u{2500}\u{2500} relates \u{2192} ? (dddddddd) [?]\n\
         \u{2514}\u{2500}\u{2500} depends_on \u{2192} ? (cccccccc) [?]\n    \
         \u{2514}\u{2500}\u{2500} depends_on \u{2192} ? (dddddddd) [?] (\u{2192} see above)\n"
    );
}

#[test]
fn topgraph_tree_reverses_edges_and_labels() {
    let (nodes, edges) = diamond();
    let tree = render_ascii_tree(D, &nodes, &edges, true);
    assert_eq!(
        tree,
        "? (dddddddd) [?]\n\
         \u{251c}\u{2500}\u{2500} ~relates \u{2192} Left (bbbbbbbb) [planned]\n\
         \u{2502}   \u{2514}\u{2500}\u{2500} blocks \u{2192} Root (aaaaaaaa) [open]\n\
         \u{2514}\u{2500}\u{2500} blocks \u{2192} ? (cccccccc) [?]\n    \
         \u{2514}\u{2500}\u{2500} blocks \u{2192} Root (aaaaaaaa) [open] (\u{2192} see above)\n"
    );
}

#[test]
fn cyclic_edges_stop_at_the_root() {
    let nodes = vec![node(A, Some("Root"), Some("open"), 0), node(B, Some("Left"), Some("planned"), 1)];
    let edges = vec![edge(A, B, "depends_on"), edge(B, A, "depends_on")];
    let tree = render_ascii_tree(A, &nodes, &edges, false);
    assert_eq!(
        tree,
        "Root (aaaaaaaa) [open]\n\
         \u{2514}\u{2500}\u{2500} depends_on \u{2192} Left (bbbbbbbb) [planned]\n    \
         \u{2514}\u{2500}\u{2500} depends_on \u{2192} Root (aaaaaaaa) [open] (\u{2192} see above)\n"
    );
}

#[test]
fn later_node_entries_win_for_labels() {
    let nodes = vec![node(A, Some("Old"), Some("open"), 0), node(A, Some("New"), None, 0)];
    assert_eq!(render_ascii_tree(A, &nodes, &[], false), "New (aaaaaaaa) [?]\n");
}

#[test]
fn reverse_labels() {
    assert_eq!(reverse_edge_label("depends_on"), "blocks");
    assert_eq!(reverse_edge_label("relates"), "~relates");
}

#[test]
fn dangling_candidates_follow_kind_root_and_existence() {
    let edges = vec![
        edge(A, B, "depends_on"),
        edge(A, C, "depends_on"),
        edge(A, D, "relates"),
        edge(B, D, "depends_on"),
    ];
    let existing = vec![A, B];
    let all = dangling_candidates(&edges, "depends_on", None, &existing);
    assert_eq!(all.iter().map(|e| (e.from, e.to)).collect::<Vec<_>>(), vec![(A, C), (B, D)]);
    let rooted = dangling_candidates(&edges, "depends_on", Some(A), &existing);
    assert_eq!(rooted.iter().map(|e| (e.from, e.to)).collect::<Vec<_>>(), vec![(A, C)]);
    assert!(dangling_candidates(&edges, "blocks", None, &existing).is_empty());
}
