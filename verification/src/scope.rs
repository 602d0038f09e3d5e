//! Which tickets a health or quality check looks at: explicit ids, every
//! ticket, or the neighbourhood of a root reached over `depends_on` and
//! `linked` edges.
use vstd::prelude::*;
use crate::text::str_eq;
use crate::workflow::{EdgeRecord, EdgeView, edges_view};
use crate::graph::{
    GraphEdge, GraphEdgeView, AdjView, edge_views, adj_of, all_kinds, visits_ok, build_adjacency, traverse_graph,
    entries_fn,
};

verus! {

/// The edge kinds that connect a scope.
pub open spec fn scope_kind(kind: Seq<char>) -> bool {
    kind == "depends_on"@ || kind == "linked"@
}

/// The scope-connecting edges of `es`, in order.
pub open spec fn scope_edges(es: Seq<EdgeView>) -> Seq<GraphEdgeView>
    decreases es.len(),
{
    if es.len() == 0 {
        Seq::empty()
    } else {
        let rest = scope_edges(es.drop_last());
        let e = es.last();
        if scope_kind(e.kind) {
            rest.push(GraphEdgeView { from: e.from, to: e.to, kind: e.kind })
        } else {
            rest
        }
    }
}

/// A scope is connected over exactly the `depends_on` and `linked` edges,
/// kept in their order.
pub proof fn lemma_scope_edges_kinds(es: Seq<EdgeView>)
    ensures
        scope_edges(es) == es.filter(|e: EdgeView| e.kind == "depends_on"@ || e.kind == "linked"@).map_values(
            |e: EdgeView| GraphEdgeView { from: e.from, to: e.to, kind: e.kind },
        ),
    decreases es.len(),
{
    reveal(Seq::filter);
    let f = |e: EdgeView| e.kind == "depends_on"@ || e.kind == "linked"@;
    let g = |e: EdgeView| GraphEdgeView { from: e.from, to: e.to, kind: e.kind };
    if es.len() == 0 {
        assert(es.filter(f).map_values(g) =~= Seq::<GraphEdgeView>::empty());
    } else {
        lemma_scope_edges_kinds(es.drop_last());
        let prev = es.drop_last().filter(f);
        if f(es.last()) {
            assert(es.filter(f) == prev.push(es.last()));
            assert(prev.push(es.last()).map_values(g) =~= prev.map_values(g).push(g(es.last())));
        } else {
            assert(es.filter(f) == prev);
        }
    }
}

/// The neighbours of each ticket over the scope-connecting edges.
pub open spec fn scope_entries(es: Seq<EdgeView>) -> spec_fn(u128) -> Seq<AdjView> {
    |x: u128| adj_of(scope_edges(es), all_kinds(), x)
}

fn scope_graph_edges(all_edges: &[EdgeRecord]) -> (r: Vec<GraphEdge>)
    ensures
        edge_views(r@) == scope_edges(edges_view(all_edges@)),
{
    let ghost ev = edges_view(all_edges@);
    let mut out: Vec<GraphEdge> = Vec::new();
    let mut i: usize = 0;
    while i < all_edges.len()
        invariant
            ev == edges_view(all_edges@),
            i <= all_edges@.len(),
            edge_views(out@) == scope_edges(ev.subrange(0, i as int)),
        decreases all_edges@.len() - i,
    {
        proof {
            assert(ev.subrange(0, i + 1).drop_last() =~= ev.subrange(0, i as int));
            assert(ev.subrange(0, i + 1).last() == all_edges@[i as int]@);
        }
        let e = &all_edges[i];
        if str_eq(e.kind.as_str(), "depends_on") || str_eq(e.kind.as_str(), "linked") {
            let g = GraphEdge { from: e.from, to: e.to, kind: e.kind.clone() };
            let ghost before = out@;
            out.push(g);
            proof {
                assert(edge_views(out@) =~= edge_views(before).push(g@));
            }
        }
        i = i + 1;
    }
    assert(ev.subrange(0, ev.len() as int) =~= ev);
    out
}

/// The tickets reached from `root` over `depends_on` and `linked` edges in
/// the allowed direction (`out`, `in`, or anything else for both), expanding
/// tickets below `depth_limit`, each once, in breadth-first order.
pub fn collect_scope_ids(root: u128, depth_limit: usize, direction: &str, all_edges: &[EdgeRecord]) -> (r: Vec<u128>)
    ensures
        exists|vis: Seq<(u128, usize)>, truncated: bool, deepest: usize| {
            &&& #[trigger] visits_ok(scope_entries(edges_view(all_edges@)), direction@, root, depth_limit, usize::MAX, vis, truncated, deepest)
            &&& r@ == vis.map_values(|p: (u128, usize)| p.0)
        },
{
    let edges = scope_graph_edges(all_edges);
    let adj = build_adjacency(edges.as_slice(), "all");
    proof {
        reveal_strlit("all");
        assert("all"@ == all_kinds());
        assert(entries_fn(adj) =~= scope_entries(edges_view(all_edges@)));
    }
    let walk = traverse_graph(&adj, root, direction, depth_limit, usize::MAX, 0);
    let mut out: Vec<u128> = Vec::new();
    let mut i: usize = 0;
    while i < walk.visited.len()
        invariant
            i <= walk.visited@.len(),
            out@ == walk.visited@.subrange(0, i as int).map_values(|p: (u128, usize)| p.0),
        decreases walk.visited@.len() - i,
    {
        out.push(walk.visited[i].0);
        i = i + 1;
        assert(out@ =~= walk.visited@.subrange(0, i as int).map_values(|p: (u128, usize)| p.0));
    }
    assert(walk.visited@.subrange(0, walk.visited@.len() as int) =~= walk.visited@);
    assert(visits_ok(scope_entries(edges_view(all_edges@)), direction@, root, depth_limit, usize::MAX, walk.visited@, walk.truncated, walk.max_depth_reached));
    out
}

/// How a health check chooses its tickets.
#[derive(PartialEq, Eq, Structural, Debug)]
pub enum ScopeSelection {
    /// The tickets named by id.
    Explicit,
    /// Every ticket.
    All,
    /// The neighbourhood of the root.
    Root,
    /// Nothing says which tickets: the request is refused.
    Missing,
}

/// Explicit ids win, then `all`, then a root; with none of them the request
/// is refused.
pub fn scope_selection(has_ids: bool, all: bool, has_root: bool) -> (r: ScopeSelection)
    ensures
        has_ids ==> r == ScopeSelection::Explicit,
        !has_ids && all ==> r == ScopeSelection::All,
        !has_ids && !all && has_root ==> r == ScopeSelection::Root,
        !has_ids && !all && !has_root ==> r == ScopeSelection::Missing,
{
    if has_ids {
        ScopeSelection::Explicit
    } else if all {
        ScopeSelection::All
    } else if has_root {
        ScopeSelection::Root
    } else {
        ScopeSelection::Missing
    }
}

/// The walk depth of a root scope: the requested depth (6 when none was
/// given) capped at 8.
pub fn scope_depth(depth: Option<usize>) -> (r: usize)
    ensures
        r == match depth {
            Some(d) => if d <= 8 { d } else { 8 },
            None => 6,
        },
{
    match depth {
        Some(d) => if d <= 8 { d } else { 8 },
        None => 6,
    }
}

} // verus!
