//! Edge maintenance and the ASCII tree of a ticket graph walk.
use vstd::prelude::*;
use crate::text::{str_eq, push_char};
use crate::graph::{GraphEdge, GraphEdgeView, edge_views};
use crate::board_render::{short_id_spec, short_ticket_id};

verus! {

/// Whether an edge is a dangling candidate: of the given kind, leaving the
/// given root (any ticket when there is none), and pointing at a ticket
/// that does not exist.
pub open spec fn dangling_in_scope(kind: Seq<char>, root: Option<u128>, existing: Seq<u128>, e: GraphEdgeView) -> bool {
    &&& e.kind == kind
    &&& match root {
        Some(r) => e.from == r,
        None => true,
    }
    &&& !existing.contains(e.to)
}

fn contains_id(ids: &[u128], x: u128) -> (r: bool)
    ensures
        r == ids@.contains(x),
{
    let mut i: usize = 0;
    while i < ids.len()
        invariant
            i <= ids@.len(),
            forall|j: int| 0 <= j < i ==> ids@[j] != x,
        decreases ids@.len() - i,
    {
        if ids[i] == x {
            assert(ids@[i as int] == x);
            return true;
        }
        i = i + 1;
    }
    false
}

/// The edges that pruning would remove, in order: those of `kind` (from
/// `root` only, when one is given) whose target is not among the existing
/// tickets.
pub fn dangling_candidates(all_edges: &[GraphEdge], kind: &str, root: Option<u128>, existing: &[u128]) -> (r: Vec<
    GraphEdge,
>)
    ensures
        edge_views(r@) == edge_views(all_edges@).filter(
            |e: GraphEdgeView| dangling_in_scope(kind@, root, existing@, e),
        ),
{
    let ghost ev = edge_views(all_edges@);
    let ghost pred = |e: GraphEdgeView| dangling_in_scope(kind@, root, existing@, e);
    let mut out: Vec<GraphEdge> = Vec::new();
    let mut i: usize = 0;
    proof {
        reveal(Seq::filter);
    }
    assert(ev.subrange(0, 0) =~= Seq::<GraphEdgeView>::empty());
    assert(edge_views(out@) =~= ev.subrange(0, 0).filter(pred));
    while i < all_edges.len()
        invariant
            i <= all_edges@.len(),
            ev == edge_views(all_edges@),
            pred == (|e: GraphEdgeView| dangling_in_scope(kind@, root, existing@, e)),
            edge_views(out@) == ev.subrange(0, i as int).filter(pred),
        decreases all_edges@.len() - i,
    {
        proof {
            reveal(Seq::filter);
        }
        let ghost sub = ev.subrange(0, i + 1);
        assert(sub.drop_last() =~= ev.subrange(0, i as int));
        assert(sub.last() == all_edges@[i as int]@);
        let ghost before = edge_views(out@);
        let e = &all_edges[i];
        let in_root = match root {
            Some(r) => e.from == r,
            None => true,
        };
        if str_eq(e.kind.as_str(), kind) && in_root && !contains_id(existing, e.to) {
            out.push(GraphEdge { from: e.from, to: e.to, kind: e.kind.clone() });
            assert(edge_views(out@) =~= before.push(all_edges@[i as int]@));
        }
        i = i + 1;
    }
    assert(ev.subrange(0, all_edges@.len() as int) =~= ev);
    out
}

/// How an edge reads from its target's side: `depends_on` reads `blocks`,
/// any other kind gets a `~` in front.
pub open spec fn reverse_label_spec(kind: Seq<char>) -> Seq<char> {
    if kind == "depends_on"@ {
        "blocks"@
    } else {
        "~"@ + kind
    }
}

/// The reverse-direction label of an edge kind (see `reverse_label_spec`).
pub fn reverse_edge_label(kind: &str) -> (r: String)
    ensures
        r@ == reverse_label_spec(kind@),
{
    if str_eq(kind, "depends_on") {
        "blocks".to_string()
    } else {
        let mut out = String::new();
        out.append("~");
        out.append(kind);
        assert(out@ =~= reverse_label_spec(kind@));
        out
    }
}

/// A node reached by a graph walk: its id, its indexed title and state, and
/// its depth from the root.
pub struct TraversalNode {
    pub id: u128,
    pub title: Option<String>,
    pub state: Option<String>,
    pub depth: usize,
}

/// The title and state recorded for a ticket: the last node with its id.
pub open spec fn node_info(nodes: Seq<TraversalNode>, id: u128) -> Option<(Option<String>, Option<String>)>
    decreases nodes.len(),
{
    if nodes.len() == 0 {
        None
    } else if nodes.last().id == id {
        Some((nodes.last().title, nodes.last().state))
    } else {
        node_info(nodes.drop_last(), id)
    }
}

/// A ticket's title, `?` when unknown.
pub open spec fn title_text(info: Option<(Option<String>, Option<String>)>) -> Seq<char> {
    match info {
        Some((Some(t), _)) => t@,
        _ => "?"@,
    }
}

/// A ticket's state, `?` when unknown.
pub open spec fn state_text(info: Option<(Option<String>, Option<String>)>) -> Seq<char> {
    match info {
        Some((_, Some(s))) => s@,
        _ => "?"@,
    }
}

/// How the tree names a ticket: `title (short id) [state]`.
pub open spec fn node_label(nodes: Seq<TraversalNode>, id: u128) -> Seq<char> {
    title_text(node_info(nodes, id)) + " ("@ + short_id_spec(id) + ") ["@ + state_text(node_info(nodes, id)) + "]"@
}

/// The parent of an edge in the tree: its source, or its target in a
/// reverse tree.
pub open spec fn tree_parent(e: GraphEdgeView, rev: bool) -> u128 {
    if rev {
        e.to
    } else {
        e.from
    }
}

/// The child of an edge in the tree.
pub open spec fn tree_child(e: GraphEdgeView, rev: bool) -> u128 {
    if rev {
        e.from
    } else {
        e.to
    }
}

/// The children of a ticket in the tree, in edge order, each with the kind
/// of its edge.
pub open spec fn kids_of(es: Seq<GraphEdgeView>, parent: u128, rev: bool) -> Seq<(Seq<char>, u128)>
    decreases es.len(),
{
    if es.len() == 0 {
        Seq::empty()
    } else {
        let prev = kids_of(es.drop_last(), parent, rev);
        if tree_parent(es.last(), rev) == parent {
            prev.push((es.last().kind, tree_child(es.last(), rev)))
        } else {
            prev
        }
    }
}

/// Both ends of every edge.
pub open spec fn endpoints(es: Seq<GraphEdgeView>) -> Seq<u128>
    decreases es.len(),
{
    if es.len() == 0 {
        Seq::empty()
    } else {
        endpoints(es.drop_last()).push(es.last().from).push(es.last().to)
    }
}

/// The tickets a tree over these edges can show: the root and every edge
/// end.
pub open spec fn tree_universe(es: Seq<GraphEdgeView>, root: u128) -> Set<u128> {
    endpoints(es).to_set().insert(root)
}

/// The label of a tree edge: its kind (reversed in a reverse tree) and an
/// arrow.
pub open spec fn edge_label(kind: Seq<char>, rev: bool) -> Seq<char> {
    (if rev {
        reverse_label_spec(kind)
    } else {
        kind
    }) + " \u{2192}"@
}

/// The branch drawn before a child.
pub open spec fn connector(is_last: bool) -> Seq<char> {
    if is_last {
        "\u{2514}\u{2500}\u{2500} "@
    } else {
        "\u{251c}\u{2500}\u{2500} "@
    }
}

/// What the lines under a child start with besides its own prefix.
pub open spec fn child_prefix(is_last: bool) -> Seq<char> {
    if is_last {
        "    "@
    } else {
        "\u{2502}   "@
    }
}

/// The line of a child: the prefix, the branch, the edge label and the
/// ticket, marked when the ticket was already shown above.
pub open spec fn kid_line(
    nodes: Seq<TraversalNode>,
    prefix: Seq<char>,
    is_last: bool,
    kind: Seq<char>,
    child: u128,
    rev: bool,
    seen: bool,
) -> Seq<char> {
    prefix + connector(is_last) + edge_label(kind, rev) + " "@ + node_label(nodes, child) + (if seen {
        " (\u{2192} see above)"@
    } else {
        Seq::empty()
    }) + "\n"@
}

/// The lines under a ticket, with the tickets shown so far: each child on
/// a line, and under each child not shown before, its own lines. `fuel`
/// bounds the depth; the tree is drawn with more than enough of it.
pub open spec fn render_node(
    nodes: Seq<TraversalNode>,
    es: Seq<GraphEdgeView>,
    rev: bool,
    parent: u128,
    prefix: Seq<char>,
    visited: Set<u128>,
    fuel: nat,
) -> (Seq<char>, Set<u128>)
    decreases fuel, 1nat, 0int,
{
    if fuel == 0 {
        (Seq::empty(), visited)
    } else {
        render_kids(nodes, es, rev, kids_of(es, parent, rev), 0, prefix, visited, fuel)
    }
}

/// The lines of the children of a ticket from the `i`-th on.
pub open spec fn render_kids(
    nodes: Seq<TraversalNode>,
    es: Seq<GraphEdgeView>,
    rev: bool,
    kids: Seq<(Seq<char>, u128)>,
    i: int,
    prefix: Seq<char>,
    visited: Set<u128>,
    fuel: nat,
) -> (Seq<char>, Set<u128>)
    decreases fuel, 0nat, kids.len() - i,
{
    if i < 0 || i >= kids.len() || fuel == 0 {
        (Seq::empty(), visited)
    } else {
        let kind = kids[i].0;
        let child = kids[i].1;
        let is_last = i == kids.len() - 1;
        let seen = visited.contains(child);
        let line = kid_line(nodes, prefix, is_last, kind, child, rev, seen);
        let under = if seen {
            (Seq::empty(), visited)
        } else {
            render_node(nodes, es, rev, child, prefix + child_prefix(is_last), visited.insert(child), (fuel - 1) as nat)
        };
        let rest = render_kids(nodes, es, rev, kids, i + 1, prefix, under.1, fuel);
        (line + under.0 + rest.0, rest.1)
    }
}

/// The ASCII tree of a walk from `root`: the root's line, then the lines
/// under it, each ticket drawn in full once and marked where it appears
/// again.
pub open spec fn ascii_tree_spec(root: u128, nodes: Seq<TraversalNode>, es: Seq<GraphEdgeView>, rev: bool) -> Seq<
    char,
> {
    node_label(nodes, root) + "\n"@ + render_node(
        nodes,
        es,
        rev,
        root,
        Seq::empty(),
        set![root],
        tree_universe(es, root).difference(set![root]).len() + 1,
    ).0
}


/// The views of a list of children.
pub open spec fn kid_views(v: Seq<(String, u128)>) -> Seq<(Seq<char>, u128)> {
    v.map_values(|k: (String, u128)| (k.0@, k.1))
}

fn tree_children(edges: &[GraphEdge], parent: u128, rev: bool) -> (r: Vec<(String, u128)>)
    ensures
        kid_views(r@) == kids_of(edge_views(edges@), parent, rev),
{
    let ghost ev = edge_views(edges@);
    let mut out: Vec<(String, u128)> = Vec::new();
    let mut i: usize = 0;
    assert(ev.subrange(0, 0) =~= Seq::<GraphEdgeView>::empty());
    assert(kid_views(out@) =~= kids_of(ev.subrange(0, 0), parent, rev));
    while i < edges.len()
        invariant
            i <= edges@.len(),
            ev == edge_views(edges@),
            kid_views(out@) == kids_of(ev.subrange(0, i as int), parent, rev),
        decreases edges@.len() - i,
    {
        let ghost sub = ev.subrange(0, i + 1);
        assert(sub.drop_last() =~= ev.subrange(0, i as int));
        assert(sub.last() == edges@[i as int]@);
        let ghost before = kid_views(out@);
        let e = &edges[i];
        let (p, c) = if rev {
            (e.to, e.from)
        } else {
            (e.from, e.to)
        };
        if p == parent {
            out.push((e.kind.clone(), c));
            assert(kid_views(out@) =~= before.push((edges@[i as int]@.kind, c)));
        }
        i = i + 1;
    }
    assert(ev.subrange(0, edges@.len() as int) =~= ev);
    out
}

/// Every child in the tree is an edge end.
proof fn lemma_kids_in_endpoints(es: Seq<GraphEdgeView>, parent: u128, rev: bool, i: int)
    requires
        0 <= i < kids_of(es, parent, rev).len(),
    ensures
        endpoints(es).to_set().contains(kids_of(es, parent, rev)[i].1),
    decreases es.len(),
{
    let prev = kids_of(es.drop_last(), parent, rev);
    let ends = endpoints(es);
    let prev_ends = endpoints(es.drop_last());
    assert(ends == prev_ends.push(es.last().from).push(es.last().to));
    if i < prev.len() {
        lemma_kids_in_endpoints(es.drop_last(), parent, rev, i);
        let x = prev[i].1;
        let k = choose|k: int| 0 <= k < prev_ends.len() && prev_ends[k] == x;
        assert(ends[k] == x);
    } else {
        let c = tree_child(es.last(), rev);
        if rev {
            assert(ends[ends.len() - 2] == c);
        } else {
            assert(ends[ends.len() - 1] == c);
        }
    }
}

fn lookup_node(nodes: &[TraversalNode], id: u128) -> (r: Option<usize>)
    ensures
        match r {
            Some(k) => k < nodes@.len() && node_info(nodes@, id) == Some((nodes@[k as int].title, nodes@[k as int].state)),
            None => node_info(nodes@, id) is None,
        },
{
    let mut i: usize = nodes.len();
    assert(nodes@.subrange(0, nodes@.len() as int) =~= nodes@);
    while i > 0
        invariant
            i <= nodes@.len(),
            node_info(nodes@, id) == node_info(nodes@.subrange(0, i as int), id),
        decreases i,
    {
        let ghost sub = nodes@.subrange(0, i as int);
        assert(sub.drop_last() =~= nodes@.subrange(0, i - 1));
        assert(sub.last() == nodes@[i - 1]);
        if nodes[i - 1].id == id {
            return Some(i - 1);
        }
        i = i - 1;
    }
    None
}

fn push_node_label(out: &mut String, nodes: &[TraversalNode], id: u128)
    ensures
        final(out)@ == old(out)@ + node_label(nodes@, id),
{
    let found = lookup_node(nodes, id);
    match found {
        Some(k) => match &nodes[k].title {
            Some(t) => out.append(t.as_str()),
            None => out.append("?"),
        },
        None => out.append("?"),
    }
    out.append(" (");
    let short = short_ticket_id(id);
    out.append(short.as_str());
    out.append(") [");
    match found {
        Some(k) => match &nodes[k].state {
            Some(st) => out.append(st.as_str()),
            None => out.append("?"),
        },
        None => out.append("?"),
    }
    out.append("]");
    assert(out@ =~= old(out)@ + node_label(nodes@, id));
}

fn push_kid_line(
    out: &mut String,
    nodes: &[TraversalNode],
    prefix: &str,
    is_last: bool,
    kind: &str,
    child: u128,
    rev: bool,
    seen: bool,
)
    ensures
        final(out)@ == old(out)@ + kid_line(nodes@, prefix@, is_last, kind@, child, rev, seen),
{
    out.append(prefix);
    if is_last {
        out.append("\u{2514}\u{2500}\u{2500} ");
    } else {
        out.append("\u{251c}\u{2500}\u{2500} ");
    }
    if rev {
        let label = reverse_edge_label(kind);
        out.append(label.as_str());
    } else {
        out.append(kind);
    }
    out.append(" \u{2192}");
    out.append(" ");
    push_node_label(out, nodes, id_of(child));
    if seen {
        out.append(" (\u{2192} see above)");
    }
    out.append("\n");
    assert(out@ =~= old(out)@ + kid_line(nodes@, prefix@, is_last, kind@, child, rev, seen));
}

fn id_of(x: u128) -> (r: u128)
    ensures
        r == x,
{
    x
}

fn vec_has(v: &Vec<u128>, x: u128) -> (r: bool)
    ensures
        r == v@.to_set().contains(x),
{
    let r = contains_id(v.as_slice(), x);
    proof {
        if v@.contains(x) {
            let k = choose|k: int| 0 <= k < v@.len() && v@[k] == x;
            assert(v@.to_set().contains(x));
        }
    }
    r
}

/// Draws the child at `i` of `parent` and the lines under it: what is added
/// and the tickets shown after it are those of `render_kids` from `i`,
/// less what `render_kids` draws from `i + 1`.
fn render_kid(
    out: &mut String,
    visited: &mut Vec<u128>,
    kids: &Vec<(String, u128)>,
    i: usize,
    nodes: &[TraversalNode],
    edges: &[GraphEdge],
    prefix: &str,
    rev: bool,
    Ghost(parent): Ghost<u128>,
    Ghost(root): Ghost<u128>,
    Ghost(fuel): Ghost<nat>,
)
    requires
        i < kids@.len(),
        kid_views(kids@) == kids_of(edge_views(edges@), parent, rev),
        fuel > tree_universe(edge_views(edges@), root).difference(old(visited)@.to_set()).len(),
    ensures
        old(out)@ + render_kids(
            nodes@,
            edge_views(edges@),
            rev,
            kid_views(kids@),
            i as int,
            prefix@,
            old(visited)@.to_set(),
            fuel,
        ).0 == final(out)@ + render_kids(
            nodes@,
            edge_views(edges@),
            rev,
            kid_views(kids@),
            i + 1,
            prefix@,
            final(visited)@.to_set(),
            fuel,
        ).0,
        render_kids(nodes@, edge_views(edges@), rev, kid_views(kids@), i as int, prefix@, old(visited)@.to_set(), fuel).1
            == render_kids(
            nodes@,
            edge_views(edges@),
            rev,
            kid_views(kids@),
            i + 1,
            prefix@,
            final(visited)@.to_set(),
            fuel,
        ).1,
        old(visited)@.to_set().subset_of(final(visited)@.to_set()),
    decreases fuel, 0nat, kids@.len() - i,
{
    let ghost es = edge_views(edges@);
    let ghost universe = tree_universe(es, root);
    let ghost kv = kid_views(kids@);
    let ghost vi = visited@.to_set();
    let ghost before = out@;
    let kind = kids[i].0.as_str();
    let child = kids[i].1;
    assert(kv[i as int] == (kids@[i as int].0@, kids@[i as int].1));
    let is_last = i == kids.len() - 1;
    let seen = vec_has(visited, child);
    push_kid_line(out, nodes, prefix, is_last, kind, child, rev, seen);
    let ghost line = kid_line(nodes@, prefix@, is_last, kind@, child, rev, seen);
    if !seen {
        proof {
            lemma_kids_in_endpoints(es, parent, rev, i as int);
            assert(universe.contains(child));
            assert(universe.finite());
            universe.lemma_set_insert_diff_decreases(vi, child);
            crate::auth::lemma_push_to_set(visited@, child);
        }
        visited.push(child);
        let mut next_prefix = String::new();
        next_prefix.append(prefix);
        if is_last {
            next_prefix.append("    ");
        } else {
            next_prefix.append("\u{2502}   ");
        }
        assert(next_prefix@ =~= prefix@ + child_prefix(is_last));
        render_children(
            out,
            visited,
            child,
            nodes,
            edges,
            next_prefix.as_str(),
            rev,
            Ghost(root),
            Ghost((fuel - 1) as nat),
        );
    }
    proof {
        let under = if seen {
            (Seq::<char>::empty(), vi)
        } else {
            render_node(nodes@, es, rev, child, prefix@ + child_prefix(is_last), vi.insert(child), (fuel - 1) as nat)
        };
        assert(out@ =~= before + line + under.0);
        let r_next = render_kids(nodes@, es, rev, kv, i + 1, prefix@, under.1, fuel);
        assert(render_kids(nodes@, es, rev, kv, i as int, prefix@, vi, fuel) == (line + under.0 + r_next.0, r_next.1));
        assert(before + (line + under.0 + r_next.0) =~= out@ + r_next.0);
    }
}

fn render_children(
    out: &mut String,
    visited: &mut Vec<u128>,
    parent: u128,
    nodes: &[TraversalNode],
    edges: &[GraphEdge],
    prefix: &str,
    rev: bool,
    Ghost(root): Ghost<u128>,
    Ghost(fuel): Ghost<nat>,
)
    requires
        fuel > tree_universe(edge_views(edges@), root).difference(old(visited)@.to_set()).len(),
    ensures
        final(out)@ == old(out)@ + render_node(
            nodes@,
            edge_views(edges@),
            rev,
            parent,
            prefix@,
            old(visited)@.to_set(),
            fuel,
        ).0,
        final(visited)@.to_set() == render_node(
            nodes@,
            edge_views(edges@),
            rev,
            parent,
            prefix@,
            old(visited)@.to_set(),
            fuel,
        ).1,
        old(visited)@.to_set().subset_of(final(visited)@.to_set()),
    decreases fuel, 1nat, 0int,
{
    let ghost es = edge_views(edges@);
    let ghost universe = tree_universe(es, root);
    let ghost v0 = visited@.to_set();
    let ghost start = out@;
    let kids = tree_children(edges, parent, rev);
    let ghost kv = kid_views(kids@);
    let n = kids.len();
    let mut i: usize = 0;
    assert(start + render_kids(nodes@, es, rev, kv, 0, prefix@, v0, fuel).0 =~= out@ + render_kids(
        nodes@, es, rev, kv, 0, prefix@, visited@.to_set(), fuel).0);
    while i < n
        invariant
            n == kids@.len(),
            kv == kid_views(kids@),
            kv == kids_of(es, parent, rev),
            es == edge_views(edges@),
            universe == tree_universe(es, root),
            i <= n,
            v0.subset_of(visited@.to_set()),
            fuel > universe.difference(visited@.to_set()).len(),
            start + render_kids(nodes@, es, rev, kv, 0, prefix@, v0, fuel).0 == out@ + render_kids(
                nodes@,
                es,
                rev,
                kv,
                i as int,
                prefix@,
                visited@.to_set(),
                fuel,
            ).0,
            render_kids(nodes@, es, rev, kv, 0, prefix@, v0, fuel).1 == render_kids(
                nodes@,
                es,
                rev,
                kv,
                i as int,
                prefix@,
                visited@.to_set(),
                fuel,
            ).1,
        decreases n - i,
    {
        let ghost vi = visited@.to_set();
        let ghost oi = out@;
        render_kid(out, visited, &kids, i, nodes, edges, prefix, rev, Ghost(parent), Ghost(root), Ghost(fuel));
        proof {
            assert(universe.finite());
            assert(universe.difference(visited@.to_set()).subset_of(universe.difference(vi)));
            vstd::set_lib::lemma_len_subset(universe.difference(visited@.to_set()), universe.difference(vi));
            assert(start + render_kids(nodes@, es, rev, kv, 0, prefix@, v0, fuel).0 =~= out@ + render_kids(
                nodes@, es, rev, kv, i + 1, prefix@, visited@.to_set(), fuel).0);
        }
        i = i + 1;
    }
    proof {
        assert(out@ =~= start + render_kids(nodes@, es, rev, kv, 0, prefix@, v0, fuel).0);
    }
}

/// Renders the tree of a walk from `root` (see `ascii_tree_spec`); in a
/// reverse tree each edge is drawn from its target down to its source.
pub fn render_ascii_tree(root: u128, nodes: &[TraversalNode], edges: &[GraphEdge], reverse_tree: bool) -> (r: String)
    ensures
        r@ == ascii_tree_spec(root, nodes@, edge_views(edges@), reverse_tree),
{
    let mut out = String::new();
    push_node_label(&mut out, nodes, root);
    out.append("\n");
    let mut visited: Vec<u128> = Vec::new();
    proof {
        crate::auth::lemma_push_to_set(visited@, root);
        assert(visited@.to_set() =~= Set::<u128>::empty());
    }
    visited.push(root);
    let ghost es = edge_views(edges@);
    let ghost universe = tree_universe(es, root);
    assert(visited@.to_set() =~= set![root]);
    let ghost fuel: nat = universe.difference(set![root]).len() + 1;
    proof {
        reveal_strlit("");
        assert(""@ =~= Seq::<char>::empty());
    }
    render_children(&mut out, &mut visited, root, nodes, edges, "", reverse_tree, Ghost(root), Ghost(fuel));
    assert(out@ =~= ascii_tree_spec(root, nodes@, edge_views(edges@), reverse_tree));
    out
}
} // verus!
