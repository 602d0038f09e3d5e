use ticket::depths::compute_workspace_depths;
use ticket::graph::GraphEdge;

fn edge(from: u128, to: u128) -> GraphEdge {
    GraphEdge { from, to, kind: "depends_on".to_string() }
}

#[test]
fn chain_depths_count_edges_from_the_source() {
    let r = compute_workspace_depths(&[1, 2, 3], &[edge(1, 2), edge(2, 3)]);
    assert_eq!(r.depths, vec![(1, 0), (2, 1), (3, 2)]);
    assert_eq!(r.max_depth_reached, 2);
}

#[test]
fn longest_path_wins_in_a_diamond() {
    let edges = [edge(1, 2), edge(2, 3), edge(3, 4), edge(1, 4), edge(5, 4)];
    let r = compute_workspace_depths(&[1, 2, 3, 4, 5], &edges);
    assert_eq!(r.depths, vec![(1, 0), (2, 1), (3, 2), (4, 3), (5, 0)]);
    assert_eq!(r.max_depth_reached, 3);
}

#[test]
fn cycles_take_depth_only_from_peeled_predecessors() {
    let edges = [edge(1, 2), edge(2, 1), edge(3, 2)];
    let r = compute_workspace_depths(&[1, 2, 3], &edges);
    assert_eq!(r.depths, vec![(1, 0), (2, 1), (3, 0)]);
    assert_eq!(r.max_depth_reached, 1);
}

#[test]
fn outside_edges_and_repeated_ids_are_ignored() {
    let edges = [edge(1, 9), edge(9, 2), edge(1, 2), edge(1, 2)];
    let r = compute_workspace_depths(&[2, 1, 2], &edges);
    assert_eq!(r.depths, vec![(2, 1), (1, 0)]);
    assert_eq!(r.max_depth_reached, 1);
}

#[test]
fn empty_graph_has_no_depths() {
    let r = compute_workspace_depths(&[], &[]);
    assert!(r.depths.is_empty());
    assert_eq!(r.max_depth_reached, 0);
}

#[test]
fn self_loop_is_never_peeled() {
    let r = compute_workspace_depths(&[1, 2], &[edge(1, 1), edge(1, 2)]);
    assert_eq!(r.depths, vec![(1, 0), (2, 0)]);
}
