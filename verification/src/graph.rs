//! Ticket graph traversal: the adjacency of an edge list, the breadth-first
//! walk of a subgraph with its limits, and edge de-duplication.
use vstd::prelude::*;
use crate::text::str_eq;

verus! {

/// An edge between two tickets.
pub struct GraphEdge {
    pub from: u128,
    pub to: u128,
    pub kind: String,
}

/// What an edge holds.
pub struct GraphEdgeView {
    pub from: u128,
    pub to: u128,
    pub kind: Seq<char>,
}

impl View for GraphEdge {
    type V = GraphEdgeView;

    open spec fn view(&self) -> GraphEdgeView {
        GraphEdgeView { from: self.from, to: self.to, kind: self.kind@ }
    }
}

/// The views of a list of edges.
pub open spec fn edge_views(s: Seq<GraphEdge>) -> Seq<GraphEdgeView> {
    s.map_values(|e: GraphEdge| e@)
}

/// One adjacency entry of a ticket: the ticket at the other end of an edge,
/// and the edge.
pub struct AdjEntry {
    pub neighbor: u128,
    pub from: u128,
    pub to: u128,
    pub kind: String,
}

/// What an adjacency entry holds.
pub struct AdjView {
    pub neighbor: u128,
    pub from: u128,
    pub to: u128,
    pub kind: Seq<char>,
}

impl View for AdjEntry {
    type V = AdjView;

    open spec fn view(&self) -> AdjView {
        AdjView { neighbor: self.neighbor, from: self.from, to: self.to, kind: self.kind@ }
    }
}

/// The views of a list of adjacency entries.
pub open spec fn adj_views(s: Seq<AdjEntry>) -> Seq<AdjView> {
    s.map_values(|a: AdjEntry| a@)
}

/// The edge kind filter that lets every edge through.
pub open spec fn all_kinds() -> Seq<char> {
    seq!['a', 'l', 'l']
}

/// Whether an edge of kind `kind` passes the kind filter.
pub open spec fn kind_passes(filter: Seq<char>, kind: Seq<char>) -> bool {
    filter == all_kinds() || kind == filter
}

/// The adjacency entries of ticket `x`: for each edge that passes the
/// filter, in order, an entry for its target when `x` is its source, then
/// one for its source when `x` is its target.
pub open spec fn adj_of(es: Seq<GraphEdgeView>, filter: Seq<char>, x: u128) -> Seq<AdjView>
    decreases es.len(),
{
    if es.len() == 0 {
        Seq::empty()
    } else {
        let prev = adj_of(es.drop_last(), filter, x);
        let e = es.last();
        if kind_passes(filter, e.kind) {
            let a = if e.from == x {
                prev.push(AdjView { neighbor: e.to, from: e.from, to: e.to, kind: e.kind })
            } else {
                prev
            };
            if e.to == x {
                a.push(AdjView { neighbor: e.from, from: e.from, to: e.to, kind: e.kind })
            } else {
                a
            }
        } else {
            prev
        }
    }
}

/// The entries kept under `x` in parallel key and list vectors.
pub open spec fn lookup_entries(keys: Seq<u128>, lists: Seq<Vec<AdjEntry>>, x: u128) -> Seq<AdjView> {
    if exists|i: int| 0 <= i < keys.len() && keys[i] == x {
        adj_views(lists[choose|i: int| 0 <= i < keys.len() && keys[i] == x]@)
    } else {
        Seq::empty()
    }
}

/// Keys and lists of the same length, no key twice, no empty list.
pub open spec fn table_ok(keys: Seq<u128>, lists: Seq<Vec<AdjEntry>>) -> bool {
    &&& keys.len() == lists.len()
    &&& forall|i: int, j: int| 0 <= i < j < keys.len() ==> keys[i] != keys[j]
    &&& forall|i: int| 0 <= i < lists.len() ==> #[trigger] lists[i]@.len() > 0
}

proof fn lemma_lookup_at(keys: Seq<u128>, lists: Seq<Vec<AdjEntry>>, i: int)
    requires
        table_ok(keys, lists),
        0 <= i < keys.len(),
    ensures
        lookup_entries(keys, lists, keys[i]) == adj_views(lists[i]@),
{
    let x = keys[i];
    assert(exists|j: int| 0 <= j < keys.len() && keys[j] == x);
    let c = choose|j: int| 0 <= j < keys.len() && keys[j] == x;
    if c != i {
        if c < i {
            assert(keys[c] != keys[i]);
        } else {
            assert(keys[i] != keys[c]);
        }
    }
}

/// The adjacency of an edge list: for each ticket, its entries.
pub struct Adjacency {
    keys: Vec<u128>,
    lists: Vec<Vec<AdjEntry>>,
}

impl Adjacency {
    #[verifier::type_invariant]
    spec fn inv(self) -> bool {
        table_ok(self.keys@, self.lists@)
    }

    /// The adjacency entries of ticket `x`, in order.
    pub closed spec fn entries(&self, x: u128) -> Seq<AdjView> {
        lookup_entries(self.keys@, self.lists@, x)
    }

    /// The entries of ticket `x`, when it has any.
    pub fn neighbors(&self, x: u128) -> (r: Option<&Vec<AdjEntry>>)
        ensures
            match r {
                Some(v) => adj_views(v@) == self.entries(x) && v@.len() > 0,
                None => self.entries(x).len() == 0,
            },
    {
        proof {
            use_type_invariant(self);
        }
        let mut i: usize = 0;
        while i < self.keys.len()
            invariant
                i <= self.keys@.len(),
                table_ok(self.keys@, self.lists@),
                forall|q: int| 0 <= q < i ==> self.keys@[q] != x,
            decreases self.keys@.len() - i,
        {
            if self.keys[i] == x {
                proof {
                    lemma_lookup_at(self.keys@, self.lists@, i as int);
                }
                return Some(&self.lists[i]);
            }
            i = i + 1;
        }
        None
    }
}

/// Adds `a` to the entries under `x`.
fn add_entry(keys: &mut Vec<u128>, lists: &mut Vec<Vec<AdjEntry>>, x: u128, a: AdjEntry)
    requires
        table_ok(old(keys)@, old(lists)@),
    ensures
        table_ok(final(keys)@, final(lists)@),
        forall|y: u128| #[trigger] lookup_entries(final(keys)@, final(lists)@, y) == if y == x {
            lookup_entries(old(keys)@, old(lists)@, y).push(a@)
        } else {
            lookup_entries(old(keys)@, old(lists)@, y)
        },
{
    let ghost ok = keys@;
    let ghost ol = lists@;
    let mut i: usize = 0;
    while i < keys.len()
        invariant
            i <= keys@.len(),
            keys@ == ok,
            lists@ == ol,
            ok == old(keys)@,
            ol == old(lists)@,
            table_ok(ok, ol),
            forall|q: int| 0 <= q < i ==> ok[q] != x,
        decreases keys@.len() - i,
    {
        if keys[i] == x {
            let mut l: Vec<AdjEntry> = Vec::new();
            lists.set_and_swap(i, &mut l);
            let ghost before = l@;
            l.push(a);
            assert(adj_views(l@) =~= adj_views(before).push(a@));
            lists.set_and_swap(i, &mut l);
            proof {
                assert(table_ok(keys@, lists@)) by {
                    assert forall|q: int| 0 <= q < lists@.len() implies #[trigger] lists@[q]@.len() > 0 by {
                        if q != i {
                            assert(lists@[q] == ol[q]);
                        }
                    }
                }
                assert forall|y: u128| #[trigger] lookup_entries(keys@, lists@, y) == if y == x {
                    lookup_entries(ok, ol, y).push(a@)
                } else {
                    lookup_entries(ok, ol, y)
                } by {
                    if y == x {
                        lemma_lookup_at(keys@, lists@, i as int);
                        lemma_lookup_at(ok, ol, i as int);
                    } else if exists|j: int| 0 <= j < ok.len() && ok[j] == y {
                        let j = choose|j: int| 0 <= j < ok.len() && ok[j] == y;
                        lemma_lookup_at(keys@, lists@, j);
                        lemma_lookup_at(ok, ol, j);
                        assert(lists@[j] == ol[j]);
                    }
                }
            }
            return;
        }
        i = i + 1;
    }
    let mut l: Vec<AdjEntry> = Vec::new();
    l.push(a);
    assert(adj_views(l@) =~= seq![a@]);
    keys.push(x);
    lists.push(l);
    proof {
        assert(table_ok(keys@, lists@)) by {
            assert forall|q: int| 0 <= q < lists@.len() implies #[trigger] lists@[q]@.len() > 0 by {
                if q < ol.len() {
                    assert(lists@[q] == ol[q]);
                }
            }
        }
        assert forall|y: u128| #[trigger] lookup_entries(keys@, lists@, y) == if y == x {
            lookup_entries(ok, ol, y).push(a@)
        } else {
            lookup_entries(ok, ol, y)
        } by {
            if y == x {
                lemma_lookup_at(keys@, lists@, ok.len() as int);
                assert(!(exists|j: int| 0 <= j < ok.len() && ok[j] == y));
                assert(seq![a@] =~= Seq::<AdjView>::empty().push(a@));
            } else if exists|j: int| 0 <= j < ok.len() && ok[j] == y {
                let j = choose|j: int| 0 <= j < ok.len() && ok[j] == y;
                lemma_lookup_at(keys@, lists@, j);
                lemma_lookup_at(ok, ol, j);
                assert(lists@[j] == ol[j]);
            } else {
                assert(!(exists|j: int| 0 <= j < keys@.len() && keys@[j] == y)) by {
                    if exists|j: int| 0 <= j < keys@.len() && keys@[j] == y {
                        let j = choose|j: int| 0 <= j < keys@.len() && keys@[j] == y;
                        if j < ok.len() {
                            assert(ok[j] == y);
                        }
                    }
                }
            }
        }
    }
}

/// Whether an edge kind passes the filter (`all` lets every kind through).
fn kind_passes_exec(filter: &str, kind: &str) -> (r: bool)
    ensures
        r == kind_passes(filter@, kind@),
{
    proof {
        reveal_strlit("all");
    }
    assert("all"@ == all_kinds());
    str_eq(filter, "all") || str_eq(kind, filter)
}

/// The adjacency of the edges that pass the kind filter: each edge is listed
/// under its source (towards its target) and under its target (towards its
/// source).
pub fn build_adjacency(all_edges: &[GraphEdge], edge_kind_filter: &str) -> (r: Adjacency)
    ensures
        forall|x: u128| #[trigger] r.entries(x) == adj_of(edge_views(all_edges@), edge_kind_filter@, x),
{
    let ghost es = edge_views(all_edges@);
    let mut keys: Vec<u128> = Vec::new();
    let mut lists: Vec<Vec<AdjEntry>> = Vec::new();
    let mut i: usize = 0;
    assert forall|x: u128| #[trigger] lookup_entries(keys@, lists@, x) == adj_of(es.subrange(0, 0), edge_kind_filter@, x) by {
        assert(es.subrange(0, 0).len() == 0);
    }
    while i < all_edges.len()
        invariant
            i <= all_edges@.len(),
            es == edge_views(all_edges@),
            table_ok(keys@, lists@),
            forall|x: u128| #[trigger] lookup_entries(keys@, lists@, x) == adj_of(es.subrange(0, i as int), edge_kind_filter@, x),
        decreases all_edges@.len() - i,
    {
        let ghost sub = es.subrange(0, i + 1);
        assert(sub.drop_last() =~= es.subrange(0, i as int));
        let e = &all_edges[i];
        assert(sub.last() == e@);
        if kind_passes_exec(edge_kind_filter, e.kind.as_str()) {
            let ghost k0 = keys@;
            let ghost l0 = lists@;
            add_entry(&mut keys, &mut lists, e.from, AdjEntry { neighbor: e.to, from: e.from, to: e.to, kind: e.kind.clone() });
            let ghost k1 = keys@;
            let ghost l1 = lists@;
            add_entry(&mut keys, &mut lists, e.to, AdjEntry { neighbor: e.from, from: e.from, to: e.to, kind: e.kind.clone() });
            assert forall|x: u128| #[trigger] lookup_entries(keys@, lists@, x) == adj_of(sub, edge_kind_filter@, x) by {
                assert(lookup_entries(k1, l1, x) == if x == e.from {
                    lookup_entries(k0, l0, x).push(AdjView { neighbor: e.to, from: e.from, to: e.to, kind: e.kind@ })
                } else {
                    lookup_entries(k0, l0, x)
                });
                assert(lookup_entries(keys@, lists@, x) == if x == e.to {
                    lookup_entries(k1, l1, x).push(AdjView { neighbor: e.from, from: e.from, to: e.to, kind: e.kind@ })
                } else {
                    lookup_entries(k1, l1, x)
                });
            }
        } else {
            assert forall|x: u128| #[trigger] lookup_entries(keys@, lists@, x) == adj_of(sub, edge_kind_filter@, x) by {
            }
        }
        i = i + 1;
    }
    assert(es.subrange(0, all_edges@.len() as int) =~= es);
    let r = Adjacency { keys, lists };
    assert forall|x: u128| #[trigger] r.entries(x) == adj_of(es, edge_kind_filter@, x) by {
        assert(r.entries(x) == lookup_entries(r.keys@, r.lists@, x));
    }
    r
}


/// Whether an edge direction lets a step through: `out` follows edges from
/// their source, `in` from their target, anything else both ways.
pub open spec fn dir_allows(direction: Seq<char>, outbound: bool) -> bool {
    if direction == seq!['o', 'u', 't'] {
        outbound
    } else if direction == seq!['i', 'n'] {
        !outbound
    } else {
        true
    }
}

/// Whether the direction lets a step through (see `dir_allows`).
pub fn direction_allows(direction: &str, is_outbound: bool) -> (r: bool)
    ensures
        r == dir_allows(direction@, is_outbound),
{
    proof {
        reveal_strlit("out");
        reveal_strlit("in");
    }
    assert("out"@ == seq!['o', 'u', 't']);
    assert("in"@ == seq!['i', 'n']);
    if str_eq(direction, "out") {
        is_outbound
    } else if str_eq(direction, "in") {
        !is_outbound
    } else {
        true
    }
}

/// Whether the walk may follow adjacency entry `a` of ticket `u`.
pub open spec fn entry_allowed(direction: Seq<char>, a: AdjView, u: u128) -> bool {
    dir_allows(direction, a.from == u)
}

/// The adjacency entries of each ticket, as a function.
pub open spec fn entries_fn(adj: Adjacency) -> spec_fn(u128) -> Seq<AdjView> {
    |u: u128| adj.entries(u)
}

/// A step of the walk from `u` to `v`.
pub open spec fn step(ent: spec_fn(u128) -> Seq<AdjView>, direction: Seq<char>, u: u128, v: u128) -> bool {
    exists|k: int|
        0 <= k < ent(u).len() && #[trigger] ent(u)[k].neighbor == v && entry_allowed(
            direction,
            ent(u)[k],
            u,
        )
}

/// The edges of the entries of `u` that the walk follows, in order.
pub open spec fn node_edges(es: Seq<AdjView>, direction: Seq<char>, u: u128) -> Seq<GraphEdgeView>
    decreases es.len(),
{
    if es.len() == 0 {
        Seq::empty()
    } else {
        let prev = node_edges(es.drop_last(), direction, u);
        let a = es.last();
        if entry_allowed(direction, a, u) {
            prev.push(GraphEdgeView { from: a.from, to: a.to, kind: a.kind })
        } else {
            prev
        }
    }
}

/// The edges followed from the visited tickets that are expanded (those
/// below the depth limit), in visiting order.
pub open spec fn expansion_edges(
    ent: spec_fn(u128) -> Seq<AdjView>,
    direction: Seq<char>,
    vis: Seq<(u128, usize)>,
    depth_limit: usize,
) -> Seq<GraphEdgeView>
    decreases vis.len(),
{
    if vis.len() == 0 {
        Seq::empty()
    } else {
        let prev = expansion_edges(ent, direction, vis.drop_last(), depth_limit);
        let (u, d) = vis.last();
        if d < depth_limit {
            prev + node_edges(ent(u), direction, u)
        } else {
            prev
        }
    }
}

/// The first `n` elements of `s`, or all of it when it is shorter.
pub open spec fn take_upto<A>(s: Seq<A>, n: nat) -> Seq<A> {
    if s.len() <= n {
        s
    } else {
        s.take(n as int)
    }
}

/// The largest depth among visited tickets, 0 when there are none.
pub open spec fn max_depth(vis: Seq<(u128, usize)>) -> nat
    decreases vis.len(),
{
    if vis.len() == 0 {
        0
    } else {
        let p = max_depth(vis.drop_last());
        if vis.last().1 > p {
            vis.last().1 as nat
        } else {
            p
        }
    }
}

/// Ticket `v` is visited at depth `bound` or less.
pub open spec fn reached(vis: Seq<(u128, usize)>, v: u128, bound: int) -> bool {
    exists|j: int| 0 <= j < vis.len() && #[trigger] vis[j].0 == v && vis[j].1 <= bound
}

/// Ticket `v` waits in the queue (from `head` on) at depth `bound` or less.
pub open spec fn queued(queue: Seq<(u128, usize)>, head: int, v: u128, bound: int) -> bool {
    exists|q: int| head <= q < queue.len() && #[trigger] queue[q].0 == v && queue[q].1 <= bound
}

/// Entry `k` of visited ticket `i`, when the walk follows it, leads to a
/// ticket that is visited, or waits in the queue, at one more depth or less.
pub open spec fn covered(
    ent: spec_fn(u128) -> Seq<AdjView>,
    direction: Seq<char>,
    depth_limit: usize,
    vis: Seq<(u128, usize)>,
    queue: Seq<(u128, usize)>,
    head: int,
    i: int,
    k: int,
) -> bool {
    (0 <= i < vis.len() && vis[i].1 < depth_limit && 0 <= k < ent(vis[i].0).len()
        && entry_allowed(direction, ent(vis[i].0)[k], vis[i].0)) ==> (reached(
        vis,
        ent(vis[i].0)[k].neighbor,
        vis[i].1 + 1,
    ) || queued(queue, head, ent(vis[i].0)[k].neighbor, vis[i].1 + 1))
}

/// Visited tickets: no id twice.
pub open spec fn distinct_visits(vis: Seq<(u128, usize)>) -> bool {
    forall|i: int, j: int| 0 <= i < j < vis.len() ==> vis[i].0 != vis[j].0
}

/// Visited ticket `i` is the root at depth 0, or one step from an earlier
/// visited, expanded ticket one level up.
pub open spec fn witnessed(ent: spec_fn(u128) -> Seq<AdjView>, direction: Seq<char>, depth_limit: usize, root: u128, vis: Seq<(u128, usize)>, i: int) -> bool {
    &&& vis[i].1 == 0 ==> vis[i].0 == root
    &&& vis[i].1 > 0 ==> exists|j: int|
        0 <= j < i && vis[j].1 < depth_limit && vis[j].1 + 1 == vis[i].1 && #[trigger] step(
            ent,
            direction,
            vis[j].0,
            vis[i].0,
        )
}

/// Queue entry `q` came from a step out of an expanded visited ticket one
/// level up.
pub open spec fn queue_entry_ok(
    ent: spec_fn(u128) -> Seq<AdjView>,
    direction: Seq<char>,
    depth_limit: usize,
    vis: Seq<(u128, usize)>,
    queue: Seq<(u128, usize)>,
    q: int,
) -> bool {
    queue[q].1 >= 1 && exists|j: int|
        0 <= j < vis.len() && vis[j].1 < depth_limit && vis[j].1 + 1 == queue[q].1 && #[trigger] step(
            ent,
            direction,
            vis[j].0,
            queue[q].0,
        )
}

proof fn lemma_queue_ok_visit(
    ent: spec_fn(u128) -> Seq<AdjView>,
    direction: Seq<char>,
    depth_limit: usize,
    vis: Seq<(u128, usize)>,
    queue: Seq<(u128, usize)>,
    x: (u128, usize),
)
    requires
        forall|q: int| 1 <= q < queue.len() ==> #[trigger] queue_entry_ok(ent, direction, depth_limit, vis, queue, q),
    ensures
        forall|q: int| 1 <= q < queue.len() ==> #[trigger] queue_entry_ok(ent, direction, depth_limit, vis.push(x), queue, q),
{
    assert forall|q: int| 1 <= q < queue.len() implies #[trigger] queue_entry_ok(ent, direction, depth_limit, vis.push(x), queue, q) by {
        assert(queue_entry_ok(ent, direction, depth_limit, vis, queue, q));
        let j = choose|j: int|
            0 <= j < vis.len() && vis[j].1 < depth_limit && vis[j].1 + 1 == queue[q].1 && #[trigger] step(
                ent,
                direction,
                vis[j].0,
                queue[q].0,
            );
        assert(vis.push(x)[j] == vis[j]);
    }
}

proof fn lemma_queue_ok_push(
    ent: spec_fn(u128) -> Seq<AdjView>,
    direction: Seq<char>,
    depth_limit: usize,
    vis: Seq<(u128, usize)>,
    queue: Seq<(u128, usize)>,
    y: (u128, usize),
    jw: int,
)
    requires
        forall|q: int| 1 <= q < queue.len() ==> #[trigger] queue_entry_ok(ent, direction, depth_limit, vis, queue, q),
        y.1 >= 1,
        0 <= jw < vis.len(),
        vis[jw].1 < depth_limit,
        vis[jw].1 + 1 == y.1,
        step(ent, direction, vis[jw].0, y.0),
        queue.len() >= 1,
    ensures
        forall|q: int| 1 <= q < queue.len() + 1 ==> #[trigger] queue_entry_ok(ent, direction, depth_limit, vis, queue.push(y), q),
{
    assert forall|q: int| 1 <= q < queue.len() + 1 implies #[trigger] queue_entry_ok(ent, direction, depth_limit, vis, queue.push(y), q) by {
        if q < queue.len() {
            assert(queue_entry_ok(ent, direction, depth_limit, vis, queue, q));
            assert(queue.push(y)[q] == queue[q]);
        } else {
            assert(queue.push(y)[q] == y);
        }
    }
}

/// Ticket `x` is among the visited.
pub open spec fn visited_id(vis: Seq<(u128, usize)>, x: u128) -> bool {
    exists|j: int| 0 <= j < vis.len() && vis[j].0 == x
}

/// The walk could go on: nothing was visited yet (so the root waits), or a
/// step the walk follows from an expanded ticket leads to a ticket not yet
/// visited.
pub open spec fn unvisited_step(ent: spec_fn(u128) -> Seq<AdjView>, direction: Seq<char>, depth_limit: usize, vis: Seq<(u128, usize)>) -> bool {
    ||| vis.len() == 0
    ||| exists|i: int, k: int|
        0 <= i < vis.len() && vis[i].1 < depth_limit && 0 <= k < ent(vis[i].0).len()
            && entry_allowed(direction, ent(vis[i].0)[k], vis[i].0)
            && !visited_id(vis, #[trigger] ent(vis[i].0)[k].neighbor)
}

/// What a breadth-first walk from `root` guarantees of its visits: no
/// ticket twice, at most `limit_nodes` of them (all of them when the walk
/// was cut short), the root first at depth 0, depths never decreasing, each
/// visit witnessed by a step from an expanded ticket one level up, and,
/// when the walk was not cut short, every step from an expanded ticket
/// leading to a ticket visited at most one level deeper. A walk cut short
/// keeps the closest tickets: every step that leads less deep than the last
/// visited ticket leads to a visited ticket. The walk is cut short exactly
/// when it could have gone on (see `unvisited_step`).
pub open spec fn visits_ok(
    ent: spec_fn(u128) -> Seq<AdjView>,
    direction: Seq<char>,
    root: u128,
    depth_limit: usize,
    limit_nodes: usize,
    vis: Seq<(u128, usize)>,
    truncated: bool,
    max_depth_reached: usize,
) -> bool {
    &&& distinct_visits(vis)
    &&& vis.len() <= limit_nodes
    &&& truncated ==> vis.len() == limit_nodes
    &&& truncated <==> unvisited_step(ent, direction, depth_limit, vis)
    &&& limit_nodes > 0 ==> vis.len() > 0 && vis[0] == (root, 0usize)
    &&& forall|i: int, j: int| 0 <= i < j < vis.len() ==> vis[i].1 <= vis[j].1
    &&& forall|i: int| 0 <= i < vis.len() ==> #[trigger] witnessed(ent, direction, depth_limit, root, vis, i)
    &&& !truncated ==> forall|i: int, k: int|
        0 <= i < vis.len() && vis[i].1 < depth_limit && 0 <= k < ent(vis[i].0).len() && entry_allowed(
            direction,
            ent(vis[i].0)[k],
            vis[i].0,
        ) ==> #[trigger] reached(vis, ent(vis[i].0)[k].neighbor, vis[i].1 + 1)
    &&& vis.len() > 0 ==> forall|i: int, k: int|
        0 <= i < vis.len() && vis[i].1 < depth_limit && vis[i].1 + 1 < vis.last().1 && 0 <= k < ent(vis[i].0).len()
            && entry_allowed(direction, ent(vis[i].0)[k], vis[i].0)
            ==> #[trigger] reached(vis, ent(vis[i].0)[k].neighbor, vis[i].1 + 1)
    &&& max_depth_reached == max_depth(vis)
}

/// The result of a walk.
pub struct TraversalResult {
    /// The visited tickets with their depths, in visiting order.
    pub visited: Vec<(u128, usize)>,
    /// The edges followed, up to the edge limit.
    pub edges: Vec<GraphEdge>,
    /// Whether the node limit cut the walk short.
    pub truncated: bool,
    /// The largest depth visited.
    pub max_depth_reached: usize,
}

fn visited_has(vis: &Vec<(u128, usize)>, id: u128) -> (r: bool)
    ensures
        r == exists|j: int| 0 <= j < vis@.len() && vis@[j].0 == id,
{
    let mut i: usize = 0;
    while i < vis.len()
        invariant
            i <= vis@.len(),
            forall|q: int| 0 <= q < i ==> vis@[q].0 != id,
        decreases vis@.len() - i,
    {
        if vis[i].0 == id {
            return true;
        }
        i = i + 1;
    }
    false
}

proof fn lemma_take_upto_push<A>(s: Seq<A>, x: A, n: nat)
    ensures
        take_upto(s.push(x), n) == if s.len() < n { take_upto(s, n).push(x) } else { take_upto(s, n) },
{
    if s.len() < n {
        assert(take_upto(s.push(x), n) =~= take_upto(s, n).push(x));
    } else {
        assert(take_upto(s.push(x), n) =~= take_upto(s, n));
    }
}

proof fn lemma_take_upto_len<A>(s: Seq<A>, n: nat)
    ensures
        take_upto(s, n).len() == if s.len() <= n { s.len() } else { n },
{
}


/// Breadth-first walk from `root` over the adjacency, following the entries
/// the direction allows, expanding tickets below `depth_limit`, visiting at
/// most `limit_nodes` tickets and keeping at most `limit_edges` edges.
///
/// The visited tickets come in breadth-first order with their depths: the
/// root first at depth 0, every other one a step from an earlier, expanded
/// ticket one level up. When the node limit was not reached, every step from
/// an expanded ticket leads to a visited ticket at most one level deeper, so
/// the depths are the shortest step counts. When it was reached, the walk
/// still kept the closest tickets: a step from an expanded ticket that leads
/// less deep than the last visited ticket leads to a visited ticket.
pub fn traverse_graph(
    adj: &Adjacency,
    root: u128,
    direction: &str,
    depth_limit: usize,
    limit_nodes: usize,
    limit_edges: usize,
) -> (r: TraversalResult)
    ensures
        visits_ok(entries_fn(*adj), direction@, root, depth_limit, limit_nodes, r.visited@, r.truncated, r.max_depth_reached),
        edge_views(r.edges@) == take_upto(expansion_edges(entries_fn(*adj), direction@, r.visited@, depth_limit), limit_edges as nat),
{
    let ghost dir = direction@;
    let mut visited: Vec<(u128, usize)> = Vec::new();
    let mut edges: Vec<GraphEdge> = Vec::new();
    let mut truncated = false;
    let mut max_depth_reached: usize = 0;
    let mut queue: Vec<(u128, usize)> = Vec::new();
    queue.push((root, 0));
    let mut head: usize = 0;
    assert(edge_views(edges@) =~= take_upto(expansion_edges(entries_fn(*adj), dir, visited@, depth_limit), limit_edges as nat));
    loop
        invariant_except_break
            !truncated,
        invariant
            dir == direction@,
            head <= queue@.len(),
            queue@.len() >= 1,
            queue@[0] == (root, 0usize),
            visited@.len() <= limit_nodes,
            truncated ==> visited@.len() >= limit_nodes,
            distinct_visits(visited@),
            forall|i: int, j: int| 0 <= i < j < visited@.len() ==> visited@[i].1 <= visited@[j].1,
            forall|a: int, b: int| 0 <= a <= b < queue@.len() ==> queue@[a].1 <= queue@[b].1,
            forall|i: int, q: int| 0 <= i < visited@.len() && head <= q < queue@.len() ==> visited@[i].1 <= queue@[q].1,
            visited@.len() > 0 ==> forall|q: int| 0 <= q < queue@.len() ==> queue@[q].1 <= visited@.last().1 + 1,
            visited@.len() == 0 ==> head == 0 && queue@.len() == 1,
            visited@.len() > 0 ==> visited@[0] == (root, 0usize),
            forall|q: int| 1 <= q < queue@.len() ==> #[trigger] queue_entry_ok(entries_fn(*adj), dir, depth_limit, visited@, queue@, q),
            forall|i: int| 0 <= i < visited@.len() ==> #[trigger] witnessed(entries_fn(*adj), dir, depth_limit, root, visited@, i),
            max_depth_reached == max_depth(visited@),
            edge_views(edges@) == take_upto(expansion_edges(entries_fn(*adj), dir, visited@, depth_limit), limit_edges as nat),
            forall|i: int, k: int| #[trigger] covered(entries_fn(*adj), dir, depth_limit, visited@, queue@, head as int, i, k),
        ensures
            truncated || head >= queue@.len(),
            truncated ==> unvisited_step(entries_fn(*adj), dir, depth_limit, visited@),
        decreases limit_nodes - visited@.len(), queue@.len() - head,
    {
        if head >= queue.len() {
            break;
        }
        let (cur, d) = queue[head];
        let ghost vis0 = visited@;
        let ghost q0 = queue@;
        let ghost h0 = head as int;
        if visited_has(&visited, cur) {
            head = head + 1;
            proof {
                assert forall|i: int, k: int| #[trigger] covered(entries_fn(*adj), dir, depth_limit, visited@, queue@, head as int, i, k) by {
                    assert(covered(entries_fn(*adj), dir, depth_limit, vis0, q0, h0, i, k));
                    if 0 <= i < vis0.len() && vis0[i].1 < depth_limit && 0 <= k < adj.entries(vis0[i].0).len()
                        && entry_allowed(dir, adj.entries(vis0[i].0)[k], vis0[i].0) {
                        let nb = adj.entries(vis0[i].0)[k].neighbor;
                        let b = vis0[i].1 + 1;
                        if !reached(vis0, nb, b) {
                            let q = choose|q: int| h0 <= q < q0.len() && #[trigger] q0[q].0 == nb && q0[q].1 <= b;
                            if q == h0 {
                                let j = choose|j: int| 0 <= j < vis0.len() && vis0[j].0 == cur;
                                assert(vis0[j].1 <= q0[h0].1);
                                assert(reached(vis0, nb, b));
                            } else {
                                assert(queued(queue@, head as int, nb, b));
                            }
                        }
                    }
                }
            }
            continue;
        }
        if visited.len() >= limit_nodes {
            proof {
                if visited@.len() > 0 {
                    if head == 0 {
                        assert(visited@[0].0 == cur);
                    }
                    assert(queue_entry_ok(entries_fn(*adj), dir, depth_limit, visited@, queue@, head as int));
                    let j = choose|j: int|
                        0 <= j < visited@.len() && visited@[j].1 < depth_limit && visited@[j].1 + 1 == queue@[head as int].1
                            && #[trigger] step(entries_fn(*adj), dir, visited@[j].0, queue@[head as int].0);
                    let k = choose|k: int|
                        0 <= k < entries_fn(*adj)(visited@[j].0).len() && #[trigger] entries_fn(*adj)(visited@[j].0)[k].neighbor == cur
                            && entry_allowed(dir, entries_fn(*adj)(visited@[j].0)[k], visited@[j].0);
                    assert(!visited_id(visited@, entries_fn(*adj)(visited@[j].0)[k].neighbor));
                }
            }
            truncated = true;
            break;
        }
        head = head + 1;
        visited.push((cur, d));
        if d > max_depth_reached {
            max_depth_reached = d;
        }
        proof {
            let vis1 = visited@;
            assert(vis1.drop_last() =~= vis0);
            assert forall|i: int, j: int| 0 <= i < j < vis1.len() implies vis1[i].0 != vis1[j].0 by {
                if j == vis0.len() {
                    assert(vis0[i].0 != cur);
                }
            }
            assert forall|i: int| 0 <= i < vis1.len() implies #[trigger] witnessed(entries_fn(*adj), dir, depth_limit, root, vis1, i) by {
                if i < vis0.len() {
                    assert(witnessed(entries_fn(*adj), dir, depth_limit, root, vis0, i));
                    if vis0[i].1 > 0 {
                        let j = choose|j: int|
                            0 <= j < i && vis0[j].1 < depth_limit && vis0[j].1 + 1 == vis0[i].1 && #[trigger] step(
                                entries_fn(*adj),
                                dir,
                                vis0[j].0,
                                vis0[i].0,
                            );
                        assert(vis1[j] == vis0[j]);
                    }
                } else {
                    if h0 >= 1 {
                        assert(queue_entry_ok(entries_fn(*adj), dir, depth_limit, vis0, q0, h0));
                        assert(q0[h0].1 >= 1);
                        let j = choose|j: int|
                            0 <= j < vis0.len() && vis0[j].1 < depth_limit && vis0[j].1 + 1 == q0[h0].1
                                && #[trigger] step(entries_fn(*adj), dir, vis0[j].0, q0[h0].0);
                        assert(vis1[j] == vis0[j]);
                    }
                }
            }
            lemma_queue_ok_visit(entries_fn(*adj), dir, depth_limit, vis0, q0, (cur, d));
            assert forall|i: int, k: int| #[trigger] covered(entries_fn(*adj), dir, depth_limit, vis1, queue@, head as int, i, k) || (i == vis0.len() && vis1[i].1 < depth_limit) by {
                if i < vis0.len() {
                    assert(covered(entries_fn(*adj), dir, depth_limit, vis0, q0, h0, i, k));
                    if 0 <= i && vis0[i].1 < depth_limit && 0 <= k < adj.entries(vis0[i].0).len()
                        && entry_allowed(dir, adj.entries(vis0[i].0)[k], vis0[i].0) {
                        let nb = adj.entries(vis0[i].0)[k].neighbor;
                        let b = vis0[i].1 + 1;
                        assert(vis1[i] == vis0[i]);
                        if reached(vis0, nb, b) {
                            let j = choose|j: int| 0 <= j < vis0.len() && #[trigger] vis0[j].0 == nb && vis0[j].1 <= b;
                            assert(vis1[j] == vis0[j]);
                            assert(reached(vis1, nb, b));
                        } else {
                            let q = choose|q: int| h0 <= q < q0.len() && #[trigger] q0[q].0 == nb && q0[q].1 <= b;
                            if q == h0 {
                                assert(vis1[vis0.len() as int] == (cur, d));
                                assert(reached(vis1, nb, b));
                            } else {
                                assert(queued(queue@, head as int, nb, b));
                            }
                        }
                    }
                }
            }
            assert(expansion_edges(entries_fn(*adj), dir, vis1, depth_limit) == if d < depth_limit {
                expansion_edges(entries_fn(*adj), dir, vis0, depth_limit) + node_edges(adj.entries(cur), dir, cur)
            } else {
                expansion_edges(entries_fn(*adj), dir, vis0, depth_limit)
            });
        }
        if d >= depth_limit {
            proof {
                assert forall|i: int, k: int| #[trigger] covered(entries_fn(*adj), dir, depth_limit, visited@, queue@, head as int, i, k) by {
                    assert(covered(entries_fn(*adj), dir, depth_limit, visited@, queue@, head as int, i, k) || (i == vis0.len() && visited@[i].1 < depth_limit));
                }
            }
            continue;
        }
        let nopt = adj.neighbors(cur);
        match nopt {
            None => {
                proof {
                    assert(node_edges(adj.entries(cur), dir, cur) =~= Seq::<GraphEdgeView>::empty());
                    assert(expansion_edges(entries_fn(*adj), dir, vis0, depth_limit) + Seq::<GraphEdgeView>::empty() =~= expansion_edges(entries_fn(*adj), dir, vis0, depth_limit));
                    assert forall|i: int, k: int| #[trigger] covered(entries_fn(*adj), dir, depth_limit, visited@, queue@, head as int, i, k) by {
                        assert(covered(entries_fn(*adj), dir, depth_limit, visited@, queue@, head as int, i, k) || (i == vis0.len() && visited@[i].1 < depth_limit));
                    }
                }
            },
            Some(ns) => {
                let ghost es = adj.entries(cur);
                let ghost vis1 = visited@;
                let ghost base = expansion_edges(entries_fn(*adj), dir, vis0, depth_limit);
                let mut k: usize = 0;
                assert forall|i: int| 0 <= i < visited@.len() implies visited@[i].1 <= d by {
                    if i < vis0.len() {
                        assert(vis0[i].1 <= q0[h0].1);
                        assert(visited@[i] == vis0[i]);
                    }
                }
                assert(adj_views(ns@).take(0) =~= Seq::<AdjView>::empty());
                assert(base + node_edges(adj_views(ns@).take(0), dir, cur) =~= base);
                while k < ns.len()
                    invariant
                        dir == direction@,
                        adj_views(ns@) == es,
                        es == adj.entries(cur),
                        vis1 == visited@,
                        vis1.len() == vis0.len() + 1,
                        vis1.last() == (cur, d),
                        vis1.drop_last() == vis0,
                        d < depth_limit,
                        base == expansion_edges(entries_fn(*adj), dir, vis0, depth_limit),
                        k <= ns@.len(),
                        head <= queue@.len(),
                        queue@.len() >= 1,
                        queue@[0] == (root, 0usize),
                        forall|a: int, b: int| 0 <= a <= b < queue@.len() ==> queue@[a].1 <= queue@[b].1,
                        forall|i: int, q: int| 0 <= i < visited@.len() && head <= q < queue@.len() ==> visited@[i].1 <= queue@[q].1,
                        forall|q: int| 0 <= q < queue@.len() ==> queue@[q].1 <= d + 1,
                        forall|i: int| 0 <= i < visited@.len() ==> visited@[i].1 <= d,
                        forall|q: int| 1 <= q < queue@.len() ==> #[trigger] queue_entry_ok(entries_fn(*adj), dir, depth_limit, visited@, queue@, q),
                        edge_views(edges@) == take_upto(base + node_edges(es.take(k as int), dir, cur), limit_edges as nat),
                        forall|i: int, kk: int| #[trigger] covered(entries_fn(*adj), dir, depth_limit, visited@, queue@, head as int, i, kk)
                            || (i == vis0.len() && kk >= k),
                    decreases ns@.len() - k,
                {
                    let a = &ns[k];
                    let ghost q1 = queue@;
                    assert(es.take(k + 1).drop_last() =~= es.take(k as int));
                    assert(es.take(k + 1).last() == a@);
                    if direction_allows(direction, a.from == cur) {
                        proof {
                            lemma_take_upto_push(base + node_edges(es.take(k as int), dir, cur), GraphEdgeView { from: a.from, to: a.to, kind: a.kind@ }, limit_edges as nat);
                            assert(base + node_edges(es.take(k + 1), dir, cur) =~= (base + node_edges(es.take(k as int), dir, cur)).push(GraphEdgeView { from: a.from, to: a.to, kind: a.kind@ }));
                            lemma_take_upto_len(base + node_edges(es.take(k as int), dir, cur), limit_edges as nat);
                        }
                        if edges.len() < limit_edges {
                            let ghost e0 = edges@;
                            edges.push(GraphEdge { from: a.from, to: a.to, kind: a.kind.clone() });
                            assert(edge_views(edges@) =~= edge_views(e0).push(GraphEdgeView { from: a.from, to: a.to, kind: a.kind@ }));
                        }
                        let seen = visited_has(&visited, a.neighbor);
                        if !seen {
                            queue.push((a.neighbor, d + 1));
                            proof {
                                assert(es[k as int] == a@);
                                assert(entries_fn(*adj)(cur)[k as int].neighbor == a.neighbor);
                                assert(entry_allowed(dir, entries_fn(*adj)(cur)[k as int], cur));
                                assert(step(entries_fn(*adj), dir, cur, a.neighbor));
                                assert(visited@[vis0.len() as int] == (cur, d));
                                lemma_queue_ok_push(entries_fn(*adj), dir, depth_limit, visited@, q1, (a.neighbor, (d + 1) as usize), vis0.len() as int);
                            }
                        }
                        proof {
                            assert forall|i: int, kk: int| #[trigger] covered(entries_fn(*adj), dir, depth_limit, visited@, queue@, head as int, i, kk)
                                || (i == vis0.len() && kk >= k + 1) by {
                                if i == vis0.len() && kk == k {
                                    assert(es[k as int] == a@);
                                    if seen {
                                        let j = choose|j: int| 0 <= j < visited@.len() && visited@[j].0 == a.neighbor;
                                        assert(visited@[j].1 <= d);
                                        assert(reached(visited@, a.neighbor, d + 1));
                                    } else {
                                        assert(queue@[q1.len() as int] == (a.neighbor, (d + 1) as usize));
                                        assert(queue@[q1.len() as int].0 == a.neighbor);
                                        assert(queue@[q1.len() as int].1 <= d + 1);
                                        assert(head <= q1.len() < queue@.len());
                                        assert(queued(queue@, head as int, a.neighbor, d + 1));
                                    }
                                } else if !(i == vis0.len() && kk >= k) {
                                    assert(covered(entries_fn(*adj), dir, depth_limit, visited@, q1, head as int, i, kk));
                                    if 0 <= i < visited@.len() && visited@[i].1 < depth_limit && 0 <= kk < adj.entries(visited@[i].0).len()
                                        && entry_allowed(dir, adj.entries(visited@[i].0)[kk], visited@[i].0) {
                                        let nb = adj.entries(visited@[i].0)[kk].neighbor;
                                        let b = visited@[i].1 + 1;
                                        if queued(q1, head as int, nb, b) {
                                            let q = choose|q: int| head <= q < q1.len() && #[trigger] q1[q].0 == nb && q1[q].1 <= b;
                                            assert(queue@[q] == q1[q]);
                                            assert(queued(queue@, head as int, nb, b));
                                        }
                                    }
                                }
                            }
                        }
                    } else {
                        proof {
                            assert(base + node_edges(es.take(k + 1), dir, cur) =~= base + node_edges(es.take(k as int), dir, cur));
                            assert forall|i: int, kk: int| #[trigger] covered(entries_fn(*adj), dir, depth_limit, visited@, queue@, head as int, i, kk)
                                || (i == vis0.len() && kk >= k + 1) by {
                                if i == vis0.len() && kk == k {
                                    assert(es[k as int] == a@);
                                }
                            }
                        }
                    }
                    k = k + 1;
                }
                proof {
                    assert(es.take(ns@.len() as int) =~= es);
                    assert forall|i: int, kk: int| #[trigger] covered(entries_fn(*adj), dir, depth_limit, visited@, queue@, head as int, i, kk) by {
                        assert(covered(entries_fn(*adj), dir, depth_limit, visited@, queue@, head as int, i, kk) || (i == vis0.len() && kk >= k));
                    }
                }
            },
        }
    }
    proof {
        if !truncated {
            assert(visited@.len() > 0);
            if unvisited_step(entries_fn(*adj), dir, depth_limit, visited@) {
                let (i, k) = choose|i: int, k: int|
                    0 <= i < visited@.len() && visited@[i].1 < depth_limit && 0 <= k < entries_fn(*adj)(visited@[i].0).len()
                        && entry_allowed(dir, entries_fn(*adj)(visited@[i].0)[k], visited@[i].0)
                        && !visited_id(visited@, #[trigger] entries_fn(*adj)(visited@[i].0)[k].neighbor);
                assert(covered(entries_fn(*adj), dir, depth_limit, visited@, queue@, head as int, i, k));
                let nb = entries_fn(*adj)(visited@[i].0)[k].neighbor;
                if reached(visited@, nb, visited@[i].1 + 1) {
                    let j = choose|j: int| 0 <= j < visited@.len() && #[trigger] visited@[j].0 == nb && visited@[j].1 <= visited@[i].1 + 1;
                    assert(visited_id(visited@, nb));
                }
            }
        }
        if visited@.len() > 0 {
            assert forall|i: int, k: int|
                0 <= i < visited@.len() && visited@[i].1 < depth_limit && visited@[i].1 + 1 < visited@.last().1
                    && 0 <= k < entries_fn(*adj)(visited@[i].0).len()
                    && entry_allowed(dir, entries_fn(*adj)(visited@[i].0)[k], visited@[i].0) implies #[trigger] reached(
                    visited@,
                    entries_fn(*adj)(visited@[i].0)[k].neighbor,
                    visited@[i].1 + 1,
                ) by {
                assert(covered(entries_fn(*adj), dir, depth_limit, visited@, queue@, head as int, i, k));
                let nb = entries_fn(*adj)(visited@[i].0)[k].neighbor;
                if queued(queue@, head as int, nb, visited@[i].1 + 1) {
                    let q = choose|q: int| head <= q < queue@.len() && #[trigger] queue@[q].0 == nb && queue@[q].1 <= visited@[i].1 + 1;
                    assert(visited@[visited@.len() - 1].1 <= queue@[q].1);
                }
            }
        }
        if !truncated {
            assert forall|i: int, k: int|
                0 <= i < visited@.len() && visited@[i].1 < depth_limit && 0 <= k < entries_fn(*adj)(visited@[i].0).len()
                    && entry_allowed(dir, entries_fn(*adj)(visited@[i].0)[k], visited@[i].0) implies #[trigger] reached(
                    visited@,
                    entries_fn(*adj)(visited@[i].0)[k].neighbor,
                    visited@[i].1 + 1,
                ) by {
                assert(covered(entries_fn(*adj), dir, depth_limit, visited@, queue@, head as int, i, k));
            }
        }
    }
    TraversalResult { visited, edges, truncated, max_depth_reached }
}


/// The edges of `s` with repeats dropped: each `(from, to, kind)` kept at
/// its first place.
pub open spec fn dedup_spec(s: Seq<GraphEdgeView>) -> Seq<GraphEdgeView>
    decreases s.len(),
{
    if s.len() == 0 {
        Seq::empty()
    } else {
        let prev = dedup_spec(s.drop_last());
        if prev.contains(s.last()) {
            prev
        } else {
            prev.push(s.last())
        }
    }
}

fn copy_edge(e: &GraphEdge) -> (r: GraphEdge)
    ensures
        r@ == e@,
{
    GraphEdge { from: e.from, to: e.to, kind: e.kind.clone() }
}

fn same_edge(a: &GraphEdge, b: &GraphEdge) -> (r: bool)
    ensures
        r == (a@ == b@),
{
    a.from == b.from && a.to == b.to && str_eq(a.kind.as_str(), b.kind.as_str())
}

/// Drops repeated edges, keeping the first of each `(from, to, kind)`.
pub fn dedupe_edges(edges: Vec<GraphEdge>) -> (r: Vec<GraphEdge>)
    ensures
        edge_views(r@) == dedup_spec(edge_views(edges@)),
{
    let ghost ev = edge_views(edges@);
    let mut out: Vec<GraphEdge> = Vec::new();
    let mut i: usize = 0;
    assert(ev.subrange(0, 0) =~= Seq::<GraphEdgeView>::empty());
    assert(edge_views(out@) =~= Seq::<GraphEdgeView>::empty());
    while i < edges.len()
        invariant
            i <= edges@.len(),
            ev == edge_views(edges@),
            edge_views(out@) == dedup_spec(ev.subrange(0, i as int)),
        decreases edges@.len() - i,
    {
        let ghost sub = ev.subrange(0, i + 1);
        assert(sub.drop_last() =~= ev.subrange(0, i as int));
        assert(sub.last() == edges@[i as int]@);
        let mut j: usize = 0;
        let mut seen = false;
        while j < out.len()
            invariant
                j <= out@.len(),
                i < edges@.len(),
                seen == exists|q: int| 0 <= q < j && out@[q]@ == edges@[i as int]@,
            decreases out@.len() - j,
        {
            if same_edge(&out[j], &edges[i]) {
                seen = true;
            }
            j = j + 1;
        }
        let ghost ov = edge_views(out@);
        assert(seen == ov.contains(edges@[i as int]@)) by {
            if seen {
                let q = choose|q: int| 0 <= q < out@.len() && out@[q]@ == edges@[i as int]@;
                assert(ov[q] == edges@[i as int]@);
            }
            if ov.contains(edges@[i as int]@) {
                let q = choose|q: int| 0 <= q < ov.len() && ov[q] == edges@[i as int]@;
                assert(out@[q]@ == edges@[i as int]@);
            }
        }
        if !seen {
            let e = copy_edge(&edges[i]);
            out.push(e);
            assert(edge_views(out@) =~= ov.push(edges@[i as int]@));
        }
        i = i + 1;
    }
    assert(ev.subrange(0, edges@.len() as int) =~= ev);
    out
}

/// The edges that pass the kind filter, in order.
pub fn filter_graph_edges(all_edges: &[GraphEdge], edge_kind_filter: &str) -> (r: Vec<GraphEdge>)
    ensures
        edge_views(r@) == edge_views(all_edges@).filter(|e: GraphEdgeView| kind_passes(edge_kind_filter@, e.kind)),
{
    let ghost ev = edge_views(all_edges@);
    let ghost pred = |e: GraphEdgeView| kind_passes(edge_kind_filter@, e.kind);
    let mut out: Vec<GraphEdge> = Vec::new();
    let mut i: usize = 0;
    assert(ev.subrange(0, 0) =~= Seq::<GraphEdgeView>::empty());
    proof {
        reveal(Seq::filter);
    }
    assert(edge_views(out@) =~= ev.subrange(0, 0).filter(pred));
    while i < all_edges.len()
        invariant
            i <= all_edges@.len(),
            ev == edge_views(all_edges@),
            pred == (|e: GraphEdgeView| kind_passes(edge_kind_filter@, e.kind)),
            edge_views(out@) == ev.subrange(0, i as int).filter(pred),
        decreases all_edges@.len() - i,
    {
        proof {
            reveal(Seq::filter);
        }
        let ghost sub = ev.subrange(0, i + 1);
        assert(sub.drop_last() =~= ev.subrange(0, i as int));
        assert(sub.last() == all_edges@[i as int]@);
        let ghost before = edge_views(out@);
        if kind_passes_exec(edge_kind_filter, all_edges[i].kind.as_str()) {
            let e = copy_edge(&all_edges[i]);
            out.push(e);
            assert(edge_views(out@) =~= before.push(all_edges@[i as int]@));
        }
        i = i + 1;
    }
    assert(ev.subrange(0, all_edges@.len() as int) =~= ev);
    out
}

/// Strictly increasing ids.
pub open spec fn ids_sorted(s: Seq<u128>) -> bool {
    forall|i: int, j: int| 0 <= i < j < s.len() ==> s[i] < s[j]
}

/// Inserts `x` into strictly increasing ids unless it is already there.
fn insert_id(v: &mut Vec<u128>, x: u128)
    requires
        ids_sorted(old(v)@),
    ensures
        ids_sorted(final(v)@),
        final(v)@.to_set() == old(v)@.to_set().insert(x),
{
    let ghost ov = v@;
    let mut p: usize = 0;
    while p < v.len() && v[p] < x
        invariant
            p <= v@.len(),
            v@ == ov,
            ids_sorted(ov),
            forall|q: int| 0 <= q < p ==> ov[q] < x,
        decreases v@.len() - p,
    {
        p = p + 1;
    }
    if p < v.len() && v[p] == x {
        assert(ov.to_set().insert(x) =~= ov.to_set()) by {
            assert(ov.contains(x));
        }
        return;
    }
    v.insert(p, x);
    proof {
        let nv = v@;
        ov.insert_ensures(p as int, x);
        assert forall|i: int, j: int| 0 <= i < j < nv.len() implies nv[i] < nv[j] by {
            if j < p {
            } else if j == p {
            } else if i == p {
                assert(nv[j] == ov[j - 1]);
            } else if i < p {
                assert(nv[j] == ov[j - 1]);
                assert(ov[i] < x);
            } else {
                assert(nv[j] == ov[j - 1] && nv[i] == ov[i - 1]);
            }
        }
        assert forall|y: u128| nv.to_set().contains(y) <==> ov.to_set().insert(x).contains(y) by {
            if nv.contains(y) {
                let k = choose|k: int| 0 <= k < nv.len() && nv[k] == y;
                if k < p {
                    assert(ov[k] == y);
                } else if k > p {
                    assert(ov[k - 1] == y);
                }
            }
            if ov.contains(y) {
                let k = choose|k: int| 0 <= k < ov.len() && ov[k] == y;
                if k < p {
                    assert(nv[k] == y);
                } else {
                    assert(nv[k + 1] == y);
                }
            }
            if y == x {
                assert(nv[p as int] == y);
            }
        }
        assert(nv.to_set() =~= ov.to_set().insert(x));
    }
}

/// The endpoints of some edges.
pub open spec fn endpoint_set(es: Seq<GraphEdgeView>) -> Set<u128> {
    Set::new(|x: u128| exists|i: int| 0 <= i < es.len() && (es[i].from == x || es[i].to == x))
}

/// The ticket ids of a workspace graph, ascending and each once: the
/// tickets of the workspace and both ends of every edge.
pub fn collect_workspace_node_ids(ticket_ids: &[u128], edges: &[GraphEdge]) -> (r: Vec<u128>)
    ensures
        ids_sorted(r@),
        r@.to_set() == ticket_ids@.to_set().union(endpoint_set(edge_views(edges@))),
{
    let mut ids: Vec<u128> = Vec::new();
    let mut i: usize = 0;
    assert(ids@.to_set() =~= ticket_ids@.subrange(0, 0).to_set());
    while i < ticket_ids.len()
        invariant
            i <= ticket_ids@.len(),
            ids_sorted(ids@),
            ids@.to_set() == ticket_ids@.subrange(0, i as int).to_set(),
        decreases ticket_ids@.len() - i,
    {
        insert_id(&mut ids, ticket_ids[i]);
        proof {
            crate::auth::lemma_push_to_set(ticket_ids@.subrange(0, i as int), ticket_ids@[i as int]);
            assert(ticket_ids@.subrange(0, i + 1) =~= ticket_ids@.subrange(0, i as int).push(ticket_ids@[i as int]));
        }
        i = i + 1;
    }
    assert(ticket_ids@.subrange(0, ticket_ids@.len() as int) =~= ticket_ids@);
    let ghost ev = edge_views(edges@);
    let mut k: usize = 0;
    assert(ids@.to_set() =~= ticket_ids@.to_set().union(endpoint_set(ev.subrange(0, 0))));
    while k < edges.len()
        invariant
            k <= edges@.len(),
            ev == edge_views(edges@),
            ids_sorted(ids@),
            ids@.to_set() == ticket_ids@.to_set().union(endpoint_set(ev.subrange(0, k as int))),
        decreases edges@.len() - k,
    {
        let ghost before = ids@.to_set();
        insert_id(&mut ids, edges[k].from);
        insert_id(&mut ids, edges[k].to);
        assert(ids@.to_set() =~= ticket_ids@.to_set().union(endpoint_set(ev.subrange(0, k + 1)))) by {
            let e = ev[k as int];
            assert(e == edges@[k as int]@);
            let s1 = ev.subrange(0, k + 1);
            let s0 = ev.subrange(0, k as int);
            assert forall|x: u128| endpoint_set(s1).contains(x) <==> endpoint_set(s0).contains(x) || x == e.from || x == e.to by {
                if endpoint_set(s1).contains(x) {
                    let q = choose|q: int| 0 <= q < s1.len() && (#[trigger] s1[q].from == x || s1[q].to == x);
                    if q < k {
                        assert(s0[q] == s1[q]);
                    }
                }
                if endpoint_set(s0).contains(x) {
                    let q = choose|q: int| 0 <= q < s0.len() && (#[trigger] s0[q].from == x || s0[q].to == x);
                    assert(s1[q] == s0[q]);
                }
                if x == e.from || x == e.to {
                    assert(s1[k as int] == e);
                }
            }
        }
        k = k + 1;
    }
    assert(ev.subrange(0, edges@.len() as int) =~= ev);
    ids
}


/// The parameters of a subgraph or topgraph request.
pub struct SubgraphQuery {
    pub workspace: String,
    pub root: u128,
    pub direction: Option<String>,
    pub edge_kind: Option<String>,
    pub depth: usize,
    pub limit_nodes: usize,
    pub limit_edges: usize,
}

/// The parameters of a topgraph request (the same as a subgraph's).
pub type TopgraphQuery = SubgraphQuery;

/// A graph walk request with its defaults filled in.
pub struct GraphRequest {
    pub workspace: String,
    pub root: u128,
    pub direction: String,
    pub edge_kind: Option<String>,
    pub depth: usize,
    pub limit_nodes: usize,
    pub limit_edges: usize,
}

/// The deepest a walk may go.
pub const MAX_GRAPH_DEPTH: usize = 8;

fn direction_or(direction: Option<String>, default: &str) -> (r: String)
    ensures
        r@ == match direction {
            Some(d) => d@,
            None => default@,
        },
{
    match direction {
        Some(d) => d,
        None => default.to_owned(),
    }
}

impl GraphRequest {
    /// A subgraph request: following both directions unless one is given.
    pub fn from_subgraph(params: SubgraphQuery) -> (r: Self)
        ensures
            r.direction@ == match params.direction {
                Some(d) => d@,
                None => seq!['b', 'o', 't', 'h'],
            },
            r.root == params.root,
            r.workspace == params.workspace,
            r.edge_kind == params.edge_kind,
            r.depth == params.depth,
            r.limit_nodes == params.limit_nodes,
            r.limit_edges == params.limit_edges,
    {
        proof {
            reveal_strlit("both");
        }
        GraphRequest {
            workspace: params.workspace,
            root: params.root,
            direction: direction_or(params.direction, "both"),
            edge_kind: params.edge_kind,
            depth: params.depth,
            limit_nodes: params.limit_nodes,
            limit_edges: params.limit_edges,
        }
    }

    /// A topgraph request: following edges towards their target's
    /// dependents (`in`) unless a direction is given.
    pub fn from_topgraph(params: TopgraphQuery) -> (r: Self)
        ensures
            r.direction@ == match params.direction {
                Some(d) => d@,
                None => seq!['i', 'n'],
            },
            r.root == params.root,
            r.workspace == params.workspace,
            r.edge_kind == params.edge_kind,
            r.depth == params.depth,
            r.limit_nodes == params.limit_nodes,
            r.limit_edges == params.limit_edges,
    {
        proof {
            reveal_strlit("in");
        }
        GraphRequest {
            workspace: params.workspace,
            root: params.root,
            direction: direction_or(params.direction, "in"),
            edge_kind: params.edge_kind,
            depth: params.depth,
            limit_nodes: params.limit_nodes,
            limit_edges: params.limit_edges,
        }
    }

    /// The requested depth, capped at eight.
    pub fn depth_limit(&self) -> (r: usize)
        ensures
            r == if self.depth < MAX_GRAPH_DEPTH { self.depth } else { MAX_GRAPH_DEPTH },
    {
        if self.depth < MAX_GRAPH_DEPTH {
            self.depth
        } else {
            MAX_GRAPH_DEPTH
        }
    }

    /// The edge kind filter: the requested kind, or `all`.
    pub fn edge_kind_filter(&self) -> (r: &str)
        ensures
            r@ == kind_filter_spec(self.edge_kind),
    {
        proof {
            reveal_strlit("all");
        }
        match &self.edge_kind {
            Some(k) => k.as_str(),
            None => "all",
        }
    }
}

/// The kind filter of a request: its kind, or `all`.
pub open spec fn kind_filter_spec(edge_kind: Option<String>) -> Seq<char> {
    match edge_kind {
        Some(k) => k@,
        None => all_kinds(),
    }
}

/// The adjacency entries of an edge list under a kind filter, as a function.
pub open spec fn adj_fn(es: Seq<GraphEdgeView>, filter: Seq<char>) -> spec_fn(u128) -> Seq<AdjView> {
    |x: u128| adj_of(es, filter, x)
}

/// The walk behind a subgraph or topgraph response: the adjacency of the
/// edges that pass the request's kind filter, walked from the root in the
/// request's direction down to its capped depth within its node and edge
/// limits, with repeated edges dropped.
pub fn walk_subgraph(all_edges: &[GraphEdge], request: &GraphRequest) -> (r: TraversalResult)
    ensures
        ({
            let ent = adj_fn(edge_views(all_edges@), kind_filter_spec(request.edge_kind));
            let dl = if request.depth < MAX_GRAPH_DEPTH { request.depth } else { MAX_GRAPH_DEPTH };
            &&& visits_ok(ent, request.direction@, request.root, dl, request.limit_nodes, r.visited@, r.truncated, r.max_depth_reached)
            &&& edge_views(r.edges@) == dedup_spec(take_upto(expansion_edges(ent, request.direction@, r.visited@, dl), request.limit_edges as nat))
        }),
{
    let filter = request.edge_kind_filter();
    let adjacency = build_adjacency(all_edges, filter);
    let dl = request.depth_limit();
    let t = traverse_graph(&adjacency, request.root, request.direction.as_str(), dl, request.limit_nodes, request.limit_edges);
    proof {
        assert(entries_fn(adjacency) =~= adj_fn(edge_views(all_edges@), kind_filter_spec(request.edge_kind)));
    }
    let TraversalResult { visited, edges, truncated, max_depth_reached } = t;
    let edges = dedupe_edges(edges);
    TraversalResult { visited, edges, truncated, max_depth_reached }
}

/// The walk behind the command-line subgraph and topgraph: from `root` over
/// the edges that pass the kind filter, in the given direction, expanding
/// tickets below the depth (capped at 8), with no node or edge limit, and
/// with repeated edges dropped.
pub fn collect_graph_data(root: u128, depth: usize, direction: &str, edge_kind_filter: &str, all_edges: &[GraphEdge]) -> (r: TraversalResult)
    ensures
        ({
            let ent = adj_fn(edge_views(all_edges@), edge_kind_filter@);
            let dl = if depth < MAX_GRAPH_DEPTH { depth } else { MAX_GRAPH_DEPTH };
            &&& visits_ok(ent, direction@, root, dl, usize::MAX, r.visited@, r.truncated, r.max_depth_reached)
            &&& edge_views(r.edges@) == dedup_spec(take_upto(expansion_edges(ent, direction@, r.visited@, dl), usize::MAX as nat))
        }),
{
    let adjacency = build_adjacency(all_edges, edge_kind_filter);
    let dl = if depth < MAX_GRAPH_DEPTH { depth } else { MAX_GRAPH_DEPTH };
    let t = traverse_graph(&adjacency, root, direction, dl, usize::MAX, usize::MAX);
    proof {
        assert(entries_fn(adjacency) =~= adj_fn(edge_views(all_edges@), edge_kind_filter@));
    }
    let TraversalResult { visited, edges, truncated, max_depth_reached } = t;
    let edges = dedupe_edges(edges);
    TraversalResult { visited, edges, truncated, max_depth_reached }
}

/// The ids of a walk's tickets and of both ends of its edges, ascending and
/// each once: the tickets whose details the response needs.
pub fn graph_ticket_ids(traversal: &TraversalResult) -> (r: Vec<u128>)
    ensures
        ids_sorted(r@),
        r@.to_set() == traversal.visited@.map_values(|v: (u128, usize)| v.0).to_set().union(
            endpoint_set(edge_views(traversal.edges@)),
        ),
{
    let mut firsts: Vec<u128> = Vec::new();
    let mut i: usize = 0;
    while i < traversal.visited.len()
        invariant
            i <= traversal.visited@.len(),
            firsts@ == traversal.visited@.subrange(0, i as int).map_values(|v: (u128, usize)| v.0),
        decreases traversal.visited@.len() - i,
    {
        firsts.push(traversal.visited[i].0);
        assert(traversal.visited@.subrange(0, i + 1).map_values(|v: (u128, usize)| v.0) =~= traversal.visited@.subrange(0, i as int).map_values(|v: (u128, usize)| v.0).push(traversal.visited@[i as int].0));
        i = i + 1;
    }
    assert(traversal.visited@.subrange(0, traversal.visited@.len() as int) =~= traversal.visited@);
    collect_workspace_node_ids(firsts.as_slice(), traversal.edges.as_slice())
}


/// Dropping repeated edges keeps every edge once: no edge twice, and the
/// same edges as before.
pub proof fn lemma_dedup_unique(s: Seq<GraphEdgeView>)
    ensures
        dedup_spec(s).no_duplicates(),
        dedup_spec(s).to_set() == s.to_set(),
    decreases s.len(),
{
    if s.len() > 0 {
        let prev = dedup_spec(s.drop_last());
        lemma_dedup_unique(s.drop_last());
        crate::auth::lemma_push_to_set(s.drop_last(), s.last());
        assert(s.drop_last().push(s.last()) =~= s);
        if prev.contains(s.last()) {
            assert(prev.to_set().contains(s.last()));
            assert(prev.to_set() =~= s.to_set());
        } else {
            crate::auth::lemma_push_to_set(prev, s.last());
            assert forall|i: int, j: int| 0 <= i < prev.push(s.last()).len() && 0 <= j < prev.push(s.last()).len() && i != j
                implies prev.push(s.last())[i] != prev.push(s.last())[j] by {
                if i == prev.len() {
                    if prev[j] == s.last() {
                        assert(prev.contains(s.last()));
                    }
                } else if j == prev.len() {
                    if prev[i] == s.last() {
                        assert(prev.contains(s.last()));
                    }
                }
            }
        }
    }
}

/// A sequence without repeats is its own de-duplication.
proof fn lemma_dedup_of_unique(s: Seq<GraphEdgeView>)
    requires
        s.no_duplicates(),
    ensures
        dedup_spec(s) == s,
    decreases s.len(),
{
    if s.len() > 0 {
        let t = s.drop_last();
        assert(t.no_duplicates()) by {
            assert forall|i: int, j: int| 0 <= i < t.len() && 0 <= j < t.len() && i != j implies t[i] != t[j] by {
                assert(s[i] != s[j]);
            }
        }
        lemma_dedup_of_unique(t);
        assert(!t.contains(s.last())) by {
            if t.contains(s.last()) {
                let k = choose|k: int| 0 <= k < t.len() && t[k] == s.last();
                assert(s[k] != s[s.len() - 1]);
            }
        }
        assert(t.push(s.last()) =~= s);
    }
}

/// Dropping repeated edges twice is the same as once.
pub proof fn lemma_dedup_idempotent(s: Seq<GraphEdgeView>)
    ensures
        dedup_spec(dedup_spec(s)) == dedup_spec(s),
{
    lemma_dedup_unique(s);
    lemma_dedup_of_unique(dedup_spec(s));
}

/// The adjacency is symmetric: an entry of `x` leading to `y` is matched by
/// an entry of `y` leading back to `x` for the same edge.
pub proof fn lemma_adjacency_symmetric(es: Seq<GraphEdgeView>, filter: Seq<char>, x: u128, k: int)
    requires
        0 <= k < adj_of(es, filter, x).len(),
    ensures
        ({
            let a = adj_of(es, filter, x)[k];
            exists|j: int|
                0 <= j < adj_of(es, filter, a.neighbor).len() && #[trigger] adj_of(es, filter, a.neighbor)[j] == (AdjView {
                    neighbor: x,
                    from: a.from,
                    to: a.to,
                    kind: a.kind,
                })
        }),
    decreases es.len(),
{
    let a = adj_of(es, filter, x)[k];
    let prev = adj_of(es.drop_last(), filter, x);
    let e = es.last();
    let y = a.neighbor;
    let back = AdjView { neighbor: x, from: a.from, to: a.to, kind: a.kind };
    let py = adj_of(es.drop_last(), filter, y);
    if k < prev.len() {
        assert(adj_of(es, filter, x)[k] == prev[k]) by {
            if kind_passes(filter, e.kind) {
                let p1 = if e.from == x {
                    prev.push(AdjView { neighbor: e.to, from: e.from, to: e.to, kind: e.kind })
                } else {
                    prev
                };
                assert(p1[k] == prev[k]);
            }
        }
        lemma_adjacency_symmetric(es.drop_last(), filter, x, k);
        let j = choose|j: int| 0 <= j < py.len() && #[trigger] py[j] == back;
        assert(adj_of(es, filter, y)[j] == back) by {
            if kind_passes(filter, e.kind) {
                let p1 = if e.from == y {
                    py.push(AdjView { neighbor: e.to, from: e.from, to: e.to, kind: e.kind })
                } else {
                    py
                };
                assert(p1[j] == py[j]);
            }
        }
    } else {
        assert(kind_passes(filter, e.kind));
        let fwd = AdjView { neighbor: e.to, from: e.from, to: e.to, kind: e.kind };
        let bwd = AdjView { neighbor: e.from, from: e.from, to: e.to, kind: e.kind };
        let p1 = if e.from == x { prev.push(fwd) } else { prev };
        if k < p1.len() {
            assert(e.from == x && a == fwd);
            let q1 = if e.from == y { py.push(fwd) } else { py };
            assert(adj_of(es, filter, y) == q1.push(bwd));
            assert(adj_of(es, filter, y)[q1.len() as int] == back);
        } else {
            assert(e.to == x && a == bwd);
            let q1 = if e.from == y { py.push(fwd) } else { py };
            assert(e.from == y);
            assert(q1[py.len() as int] == back);
            assert(adj_of(es, filter, y) == if e.to == y { q1.push(bwd) } else { q1 });
            assert(adj_of(es, filter, y)[py.len() as int] == back);
        }
    }
}

} // verus!
