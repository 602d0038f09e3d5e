use ticket::graph::{
    build_adjacency, collect_workspace_node_ids, dedupe_edges, direction_allows, filter_graph_edges,
    graph_ticket_ids, traverse_graph, walk_subgraph, GraphEdge, GraphRequest, SubgraphQuery,
};

fn edge(from: u128, to: u128, kind: &str) -> GraphEdge {
    GraphEdge { from, to, kind: kind.to_string() }
}

fn chain() -> Vec<GraphEdge> {
    vec![
        edge(1, 2, "depends_on"),
        edge(2, 3, "depends_on"),
        edge(3, 4, "depends_on"),
        edge(5, 1, "linked"),
    ]
}

#[test]
fn directions_gate_steps() {
    assert!(direction_allows("out", true));
    assert!(!direction_allows("out", false));
    assert!(direction_allows("in", false));
    assert!(!direction_allows("in", true));
    assert!(direction_allows("both", true));
    assert!(direction_allows("both", false));
}

#[test]
fn adjacency_lists_both_ends() {
    let adj = build_adjacency(&chain(), "all");
    let two = adj.neighbors(2).unwrap();
    assert_eq!(two.len(), 2);
    assert_eq!((two[0].neighbor, two[0].from, two[0].to), (1, 1, 2));
    assert_eq!((two[1].neighbor, two[1].from, two[1].to), (3, 2, 3));
    assert!(adj.neighbors(9).is_none());
    let only_deps = build_adjacency(&chain(), "depends_on");
    assert!(only_deps.neighbors(5).is_none());
}

#[test]
fn outbound_walk_respects_depth_limit() {
    let adj = build_adjacency(&chain(), "all");
    let t = traverse_graph(&adj, 1, "out", 2, 100, 100);
    assert_eq!(t.visited, vec![(1, 0), (2, 1), (3, 2)]);
    assert!(!t.truncated);
    assert_eq!(t.max_depth_reached, 2);
    let kinds: Vec<(u128, u128)> = t.edges.iter().map(|e| (e.from, e.to)).collect();
    assert_eq!(kinds, vec![(1, 2), (2, 3)]);
}

#[test]
fn inbound_walk_follows_dependents() {
    let adj = build_adjacency(&chain(), "all");
    let t = traverse_graph(&adj, 3, "in", 8, 100, 100);
    assert_eq!(t.visited, vec![(3, 0), (2, 1), (1, 2), (5, 3)]);
}

#[test]
fn node_and_edge_limits_cut_the_walk() {
    let adj = build_adjacency(&chain(), "all");
    let t = traverse_graph(&adj, 1, "both", 8, 2, 1);
    assert_eq!(t.visited.len(), 2);
    assert!(t.truncated);
    assert_eq!(t.edges.len(), 1);
    let none = traverse_graph(&adj, 1, "both", 8, 0, 10);
    assert!(none.visited.is_empty());
    assert!(none.truncated);
}

#[test]
fn duplicate_edges_are_dropped() {
    let edges = vec![edge(1, 2, "a"), edge(1, 2, "b"), edge(1, 2, "a"), edge(2, 1, "a")];
    let d = dedupe_edges(edges);
    let got: Vec<(u128, u128, String)> = d.into_iter().map(|e| (e.from, e.to, e.kind)).collect();
    assert_eq!(got, vec![(1, 2, "a".to_string()), (1, 2, "b".to_string()), (2, 1, "a".to_string())]);
}

#[test]
fn kind_filter_keeps_matching_edges() {
    let f = filter_graph_edges(&chain(), "linked");
    assert_eq!(f.len(), 1);
    assert_eq!((f[0].from, f[0].to), (5, 1));
    assert_eq!(filter_graph_edges(&chain(), "all").len(), 4);
}

#[test]
fn workspace_ids_are_sorted_and_unique() {
    let ids = collect_workspace_node_ids(&[9, 3, 3], &chain());
    assert_eq!(ids, vec![1, 2, 3, 4, 5, 9]);
}

#[test]
fn subgraph_request_defaults_and_walk() {
    let q = SubgraphQuery {
        workspace: "default".to_string(),
        root: 1,
        direction: None,
        edge_kind: Some("depends_on".to_string()),
        depth: 20,
        limit_nodes: 50,
        limit_edges: 50,
    };
    let req = GraphRequest::from_subgraph(q);
    assert_eq!(req.direction, "both");
    assert_eq!(req.depth_limit(), 8);
    assert_eq!(req.edge_kind_filter(), "depends_on");
    let t = walk_subgraph(&chain(), &req);
    assert_eq!(t.visited, vec![(1, 0), (2, 1), (3, 2), (4, 3)]);
    assert_eq!(t.edges.len(), 3);
    assert_eq!(graph_ticket_ids(&t), vec![1, 2, 3, 4]);
    let top = GraphRequest::from_topgraph(SubgraphQuery {
        workspace: "default".to_string(),
        root: 4,
        direction: None,
        edge_kind: None,
        depth: 1,
        limit_nodes: 50,
        limit_edges: 50,
    });
    assert_eq!(top.direction, "in");
    assert_eq!(top.edge_kind_filter(), "all");
    let t = walk_subgraph(&chain(), &top);
    assert_eq!(t.visited, vec![(4, 0), (3, 1)]);
}

#[test]
fn dedupe_twice_is_dedupe_once() {
    let edges = vec![edge(1, 2, "a"), edge(1, 2, "a"), edge(3, 4, "b"), edge(1, 2, "a")];
    let once = dedupe_edges(edges);
    let copy: Vec<GraphEdge> = once.iter().map(|e| edge(e.from, e.to, &e.kind)).collect();
    let twice = dedupe_edges(copy);
    let a: Vec<(u128, u128, String)> = once.into_iter().map(|e| (e.from, e.to, e.kind)).collect();
    let b: Vec<(u128, u128, String)> = twice.into_iter().map(|e| (e.from, e.to, e.kind)).collect();
    assert_eq!(a, b);
    assert_eq!(a.len(), 2);
}

#[test]
fn adjacency_is_symmetric() {
    let edges = chain();
    let adj = build_adjacency(&edges, "all");
    for x in 1..=5u128 {
        if let Some(entries) = adj.neighbors(x) {
            for a in entries.iter() {
                let back = adj.neighbors(a.neighbor).unwrap();
                assert!(back.iter().any(|b| b.neighbor == x && b.from == a.from && b.to == a.to && b.kind == a.kind));
            }
        }
    }
}

#[test]
fn command_line_graph_walk_follows_the_kind_filter_and_drops_repeated_edges() {
    let e = |from: u128, to: u128, kind: &str| GraphEdge { from, to, kind: kind.to_string() };
    let edges = vec![e(1, 2, "depends_on"), e(2, 3, "depends_on"), e(1, 2, "depends_on"), e(3, 4, "linked")];
    let walk = ticket::graph::collect_graph_data(1, 8, "out", "depends_on", &edges);
    assert_eq!(walk.visited, vec![(1, 0), (2, 1), (3, 2)]);
    assert_eq!(walk.edges.len(), 2);
    assert_eq!((walk.edges[0].from, walk.edges[0].to), (1, 2));
    assert_eq!((walk.edges[1].from, walk.edges[1].to), (2, 3));
    assert!(!walk.truncated);

    let shallow = ticket::graph::collect_graph_data(1, 1, "out", "all", &edges);
    assert_eq!(shallow.visited, vec![(1, 0), (2, 1)]);
    assert_eq!(shallow.edges.len(), 1);

    let capped = ticket::graph::collect_graph_data(4, 50, "in", "all", &edges);
    assert_eq!(capped.visited, vec![(4, 0), (3, 1), (2, 2), (1, 3)]);
}

#[test]
fn truncated_walk_keeps_the_closest_tickets() {
    let star = vec![edge(1, 2, "depends_on"), edge(2, 4, "depends_on"), edge(1, 3, "depends_on")];
    let adj = build_adjacency(&star, "all");
    let t = traverse_graph(&adj, 1, "out", 8, 3, 10);
    assert!(t.truncated);
    assert_eq!(t.visited, vec![(1, 0), (2, 1), (3, 1)]);
}

#[test]
fn a_walk_that_fits_its_limit_exactly_is_not_truncated() {
    let pair = vec![edge(1, 2, "depends_on")];
    let adj = build_adjacency(&pair, "all");
    let t = traverse_graph(&adj, 1, "out", 8, 2, 10);
    assert_eq!(t.visited, vec![(1, 0), (2, 1)]);
    assert!(!t.truncated);
    let cut = traverse_graph(&adj, 1, "out", 8, 1, 10);
    assert_eq!(cut.visited, vec![(1, 0)]);
    assert!(cut.truncated);
}
