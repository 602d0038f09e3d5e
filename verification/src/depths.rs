//! Depths of the tickets of a workspace graph: how far each ticket lies
//! below the tickets nothing depends on, found by peeling the graph from
//! its sources.
use vstd::prelude::*;
use crate::graph::{GraphEdge, GraphEdgeView, edge_views};

verus! {

/// The distinct ticket ids, each at its first place.
pub open spec fn distinct_ids(ids: Seq<u128>) -> Seq<u128>
    decreases ids.len(),
{
    if ids.len() == 0 {
        Seq::empty()
    } else {
        let prev = distinct_ids(ids.drop_last());
        if prev.contains(ids.last()) {
            prev
        } else {
            prev.push(ids.last())
        }
    }
}

proof fn lemma_distinct_ids(ids: Seq<u128>)
    ensures
        distinct_ids(ids).no_duplicates(),
        forall|x: u128| distinct_ids(ids).contains(x) <==> ids.contains(x),
    decreases ids.len(),
{
    if ids.len() > 0 {
        lemma_distinct_ids(ids.drop_last());
        let prev = distinct_ids(ids.drop_last());
        assert forall|x: u128| distinct_ids(ids).contains(x) <==> ids.contains(x) by {
            assert(prev.contains(x) <==> ids.drop_last().contains(x));
            if ids.contains(x) {
                let k = choose|k: int| 0 <= k < ids.len() && ids[k] == x;
                if k < ids.len() - 1 {
                    assert(ids.drop_last()[k] == x);
                    assert(ids.drop_last().contains(x));
                    assert(prev.contains(x));
                } else if !prev.contains(x) {
                    assert(ids.last() == x);
                    assert(distinct_ids(ids) == prev.push(x));
                    assert(prev.push(x)[prev.len() as int] == x);
                }
                if prev.contains(x) {
                    let j = choose|j: int| 0 <= j < prev.len() && prev[j] == x;
                    assert(prev.push(ids.last())[j] == x);
                }
                assert(distinct_ids(ids).contains(x));
            }
            if distinct_ids(ids).contains(x) {
                if prev.contains(x) {
                    assert(ids.drop_last().contains(x));
                    let k = choose|k: int| 0 <= k < ids.drop_last().len() && ids.drop_last()[k] == x;
                    assert(ids[k] == x);
                } else {
                    let q = prev.push(ids.last());
                    let k = choose|k: int| 0 <= k < q.len() && q[k] == x;
                    if k < prev.len() {
                        assert(prev[k] == x);
                    }
                    assert(x == ids.last());
                    assert(ids[ids.len() - 1] == x);
                }
            }
        }
        if !prev.contains(ids.last()) {
            let q = prev.push(ids.last());
            assert forall|i: int, j: int| 0 <= i < q.len() && 0 <= j < q.len() && i != j implies q[i] != q[j] by {
                if i < prev.len() && j < prev.len() {
                } else if i < prev.len() {
                    assert(prev.contains(q[i]));
                } else {
                    assert(prev.contains(q[j]));
                }
            }
        }
    }
}

/// The edges between tickets of the graph, as positions among the
/// distinct ticket ids, in edge order; edges with an end outside the
/// graph are left out.
pub open spec fn index_edges(nodes: Seq<u128>, es: Seq<GraphEdgeView>) -> Seq<(int, int)>
    decreases es.len(),
{
    if es.len() == 0 {
        Seq::empty()
    } else {
        let prev = index_edges(nodes, es.drop_last());
        let e = es.last();
        if nodes.contains(e.from) && nodes.contains(e.to) {
            prev.push((nodes.index_of(e.from), nodes.index_of(e.to)))
        } else {
            prev
        }
    }
}

/// A peeling order of a graph of `m` tickets with edges `g`: distinct
/// tickets, each of whose incoming edges comes from a ticket earlier in
/// the order.
pub open spec fn peel_order(order: Seq<int>, m: int, g: Seq<(int, int)>) -> bool {
    &&& order.no_duplicates()
    &&& forall|i: int| 0 <= i < order.len() ==> 0 <= #[trigger] order[i] < m
    &&& forall|i: int, k: int|
        #![trigger order[i], g[k]]
        0 <= i < order.len() && 0 <= k < g.len() && g[k].1 == order[i] ==> exists|j: int|
            0 <= j < i && order[j] == g[k].0
}

/// A peeling order that cannot grow: every other ticket has an incoming
/// edge from a ticket outside it (it lies on or below a cycle).
pub open spec fn peel_complete(order: Seq<int>, m: int, g: Seq<(int, int)>) -> bool {
    forall|v: int|
        0 <= v < m && !order.contains(v) ==> exists|k: int|
            0 <= k < g.len() && #[trigger] g[k].1 == v && !order.contains(g[k].0)
}

/// One more than the deepest peeled predecessor of `v` among the first `n`
/// edges: the depth that `v` gets from them, `0` when none counts.
pub open spec fn depth_from(g: Seq<(int, int)>, n: int, peeled: Seq<int>, depth: Seq<usize>, v: int) -> nat
    decreases n,
{
    if n <= 0 {
        0
    } else {
        let prev = depth_from(g, n - 1, peeled, depth, v);
        let e = g[n - 1];
        if e.1 == v && peeled.contains(e.0) && depth[e.0] + 1 > prev {
            (depth[e.0] + 1) as nat
        } else {
            prev
        }
    }
}

/// The depths of a peeled graph: each ticket one below its deepest peeled
/// predecessor, `0` when it has none.
pub open spec fn depths_ok(depth: Seq<usize>, order: Seq<int>, g: Seq<(int, int)>) -> bool {
    forall|v: int| 0 <= v < depth.len() ==> #[trigger] depth[v] == depth_from(g, g.len() as int, order, depth, v)
}


/// The number of edges among the first `n` into `v` that are not yet
/// resolved: their source is neither peeled in `done` nor `cur` with the
/// edge before `k`.
pub open spec fn open_count(g: Seq<(int, int)>, n: int, v: int, done: Seq<int>, cur: int, k: int) -> nat
    decreases n,
{
    if n <= 0 {
        0
    } else {
        let prev = open_count(g, n - 1, v, done, cur, k);
        let e = g[n - 1];
        if e.1 == v && !resolved(e.0, n - 1, done, cur, k) {
            prev + 1
        } else {
            prev
        }
    }
}

/// Whether the edge at `j` with source `src` counts as resolved.
pub open spec fn resolved(src: int, j: int, done: Seq<int>, cur: int, k: int) -> bool {
    done.contains(src) || (src == cur && j < k)
}

/// One more than the deepest resolved predecessor of `v` among the first
/// `n` edges, `0` when none counts.
pub open spec fn best(g: Seq<(int, int)>, n: int, v: int, done: Seq<int>, cur: int, k: int, depth: Seq<usize>) -> nat
    decreases n,
{
    if n <= 0 {
        0
    } else {
        let prev = best(g, n - 1, v, done, cur, k, depth);
        let e = g[n - 1];
        if e.1 == v && resolved(e.0, n - 1, done, cur, k) && depth[e.0] + 1 > prev {
            (depth[e.0] + 1) as nat
        } else {
            prev
        }
    }
}

proof fn lemma_best_no_cur(g: Seq<(int, int)>, n: int, v: int, done: Seq<int>, cur: int, depth: Seq<usize>)
    ensures
        best(g, n, v, done, cur, 0, depth) == depth_from(g, n, done, depth, v),
    decreases n,
{
    if n > 0 {
        lemma_best_no_cur(g, n - 1, v, done, cur, depth);
    }
}

proof fn lemma_best_all_cur(g: Seq<(int, int)>, n: int, v: int, done: Seq<int>, cur: int, k: int, depth: Seq<usize>)
    requires
        n <= k,
    ensures
        best(g, n, v, done, cur, k, depth) == best(g, n, v, done.push(cur), -1, 0, depth),
    decreases n,
{
    if n > 0 {
        lemma_best_all_cur(g, n - 1, v, done, cur, k, depth);
        let src = g[n - 1].0;
        assert(done.push(cur).contains(src) <==> (done.contains(src) || src == cur)) by {
            if done.push(cur).contains(src) {
                let q = choose|q: int| 0 <= q < done.push(cur).len() && done.push(cur)[q] == src;
                if q < done.len() {
                    assert(done[q] == src);
                }
            }
            if done.contains(src) {
                let q = choose|q: int| 0 <= q < done.len() && done[q] == src;
                assert(done.push(cur)[q] == src);
            }
            if src == cur {
                assert(done.push(cur)[done.len() as int] == src);
            }
        }
    }
}

proof fn lemma_open_all_cur(g: Seq<(int, int)>, n: int, v: int, done: Seq<int>, cur: int, k: int)
    requires
        n <= k,
    ensures
        open_count(g, n, v, done, cur, k) == open_count(g, n, v, done.push(cur), -1, 0),
    decreases n,
{
    if n > 0 {
        lemma_open_all_cur(g, n - 1, v, done, cur, k);
        let src = g[n - 1].0;
        assert(done.push(cur).contains(src) <==> (done.contains(src) || src == cur)) by {
            if done.push(cur).contains(src) {
                let q = choose|q: int| 0 <= q < done.push(cur).len() && done.push(cur)[q] == src;
                if q < done.len() {
                    assert(done[q] == src);
                }
            }
            if done.contains(src) {
                let q = choose|q: int| 0 <= q < done.len() && done[q] == src;
                assert(done.push(cur)[q] == src);
            }
            if src == cur {
                assert(done.push(cur)[done.len() as int] == src);
            }
        }
    }
}

/// Resolving edge `k` (from `cur`) lowers the open count of its target by
/// one and leaves the others.
proof fn lemma_open_step(g: Seq<(int, int)>, n: int, v: int, done: Seq<int>, cur: int, k: int)
    requires
        0 <= k < n <= g.len(),
        g[k].0 == cur,
        !done.contains(cur),
    ensures
        open_count(g, n, v, done, cur, k + 1) + (if g[k].1 == v { 1int } else { 0int }) == open_count(
            g,
            n,
            v,
            done,
            cur,
            k,
        ),
    decreases n,
{
    if n - 1 > k {
        lemma_open_step(g, n - 1, v, done, cur, k);
    } else {
        lemma_open_unchanged(g, n - 1, v, done, cur, k);
    }
}

proof fn lemma_open_unchanged(g: Seq<(int, int)>, n: int, v: int, done: Seq<int>, cur: int, k: int)
    requires
        n <= k,
    ensures
        open_count(g, n, v, done, cur, k + 1) == open_count(g, n, v, done, cur, k),
    decreases n,
{
    if n > 0 {
        lemma_open_unchanged(g, n - 1, v, done, cur, k);
    }
}

proof fn lemma_open_other(g: Seq<(int, int)>, n: int, v: int, done: Seq<int>, cur: int, k: int)
    requires
        0 <= k < g.len(),
        g[k].0 != cur,
    ensures
        open_count(g, n, v, done, cur, k + 1) == open_count(g, n, v, done, cur, k),
    decreases n,
{
    if n > 0 {
        lemma_open_other(g, n - 1, v, done, cur, k);
    }
}

proof fn lemma_best_other(g: Seq<(int, int)>, n: int, v: int, done: Seq<int>, cur: int, k: int, depth: Seq<usize>)
    requires
        0 <= k < g.len(),
        g[k].0 != cur,
    ensures
        best(g, n, v, done, cur, k + 1, depth) == best(g, n, v, done, cur, k, depth),
    decreases n,
{
    if n > 0 {
        lemma_best_other(g, n - 1, v, done, cur, k, depth);
    }
}

proof fn lemma_best_unchanged(g: Seq<(int, int)>, n: int, v: int, done: Seq<int>, cur: int, k: int, depth: Seq<usize>)
    requires
        n <= k,
    ensures
        best(g, n, v, done, cur, k + 1, depth) == best(g, n, v, done, cur, k, depth),
    decreases n,
{
    if n > 0 {
        lemma_best_unchanged(g, n - 1, v, done, cur, k, depth);
    }
}

/// Resolving edge `k` (from `cur`, not yet resolved) raises the best depth
/// of its target to at least one below `cur`, and leaves the others.
proof fn lemma_best_step(g: Seq<(int, int)>, n: int, v: int, done: Seq<int>, cur: int, k: int, depth: Seq<usize>)
    requires
        0 <= k < n <= g.len(),
        g[k].0 == cur,
        !done.contains(cur),
        0 <= cur < depth.len(),
    ensures
        best(g, n, v, done, cur, k + 1, depth) == if g[k].1 == v && depth[cur] + 1 > best(
            g,
            n,
            v,
            done,
            cur,
            k,
            depth,
        ) {
            (depth[cur] + 1) as nat
        } else {
            best(g, n, v, done, cur, k, depth)
        },
    decreases n,
{
    if n - 1 > k {
        lemma_best_step(g, n - 1, v, done, cur, k, depth);
    } else {
        lemma_best_unchanged(g, n - 1, v, done, cur, k, depth);
    }
}

/// Changing the depth of a ticket that is no resolved source changes no
/// best depth.
proof fn lemma_best_frame(
    g: Seq<(int, int)>,
    n: int,
    v: int,
    done: Seq<int>,
    cur: int,
    k: int,
    depth: Seq<usize>,
    t: int,
    x: usize,
)
    requires
        0 <= t < depth.len(),
        !done.contains(t),
        t != cur,
        n <= g.len(),
        forall|j: int| 0 <= j < g.len() ==> 0 <= #[trigger] g[j].0 < depth.len(),
    ensures
        best(g, n, v, done, cur, k, depth.update(t, x)) == best(g, n, v, done, cur, k, depth),
    decreases n,
{
    if n > 0 {
        lemma_best_frame(g, n - 1, v, done, cur, k, depth, t, x);
        let src = g[n - 1].0;
        if resolved(src, n - 1, done, cur, k) {
            assert(src != t);
            assert(depth.update(t, x)[src] == depth[src]);
        }
    }
}

/// A ticket with an unresolved incoming edge has one from a ticket that is
/// not peeled.
proof fn lemma_open_witness(g: Seq<(int, int)>, n: int, v: int, done: Seq<int>)
    requires
        open_count(g, n, v, done, -1, 0) > 0,
        n <= g.len(),
    ensures
        exists|j: int| 0 <= j < g.len() && #[trigger] g[j].1 == v && !done.contains(g[j].0),
    decreases n,
{
    if open_count(g, n - 1, v, done, -1, 0) > 0 {
        lemma_open_witness(g, n - 1, v, done);
    } else {
        assert(g[n - 1].1 == v && !done.contains(g[n - 1].0));
    }
}

/// An edge into `v` counts as open unless resolved.
proof fn lemma_open_zero(g: Seq<(int, int)>, n: int, v: int, done: Seq<int>, cur: int, k: int, j: int)
    requires
        open_count(g, n, v, done, cur, k) == 0,
        0 <= j < n,
        g[j].1 == v,
    ensures
        resolved(g[j].0, j, done, cur, k),
    decreases n,
{
    if j < n - 1 {
        lemma_open_zero(g, n - 1, v, done, cur, k, j);
    }
}

proof fn lemma_open_k0(g: Seq<(int, int)>, n: int, v: int, done: Seq<int>, cur: int)
    ensures
        open_count(g, n, v, done, cur, 0) == open_count(g, n, v, done, -1, 0),
    decreases n,
{
    if n > 0 {
        lemma_open_k0(g, n - 1, v, done, cur);
    }
}

proof fn lemma_best_k0(g: Seq<(int, int)>, n: int, v: int, done: Seq<int>, cur: int, depth: Seq<usize>)
    ensures
        best(g, n, v, done, cur, 0, depth) == best(g, n, v, done, -1, 0, depth),
    decreases n,
{
    if n > 0 {
        lemma_best_k0(g, n - 1, v, done, cur, depth);
    }
}

proof fn lemma_best_empty(g: Seq<(int, int)>, n: int, v: int, depth: Seq<usize>)
    ensures
        best(g, n, v, Seq::empty(), -1, 0, depth) == 0,
    decreases n,
{
    if n > 0 {
        lemma_best_empty(g, n - 1, v, depth);
    }
}

/// Distinct positions below `m` number at most `m`.
proof fn lemma_distinct_bounded(s: Seq<usize>, m: usize)
    requires
        s.no_duplicates(),
        forall|i: int| 0 <= i < s.len() ==> #[trigger] s[i] < m,
    ensures
        s.len() <= m,
{
    let t = s.map_values(|x: usize| x as int);
    assert(t.no_duplicates()) by {
        assert forall|i: int, j: int| 0 <= i < t.len() && 0 <= j < t.len() && i != j implies t[i] != t[j] by {
            assert(s[i] != s[j]);
        }
    }
    t.unique_seq_to_set();
    vstd::set_lib::lemma_int_range(0, m as int);
    assert(t.to_set().subset_of(vstd::set_lib::set_int_range(0, m as int))) by {
        assert forall|x: int| t.to_set().contains(x) implies vstd::set_lib::set_int_range(0, m as int).contains(x) by {
            let k = choose|k: int| 0 <= k < t.len() && t[k] == x;
            assert(s[k] < m);
        }
    }
    vstd::set_lib::lemma_len_subset(t.to_set(), vstd::set_lib::set_int_range(0, m as int));
}

/// The positions as integers.
pub open spec fn ints(s: Seq<usize>) -> Seq<int> {
    s.map_values(|x: usize| x as int)
}

/// The edges as pairs of integer positions.
pub open spec fn pairs(s: Seq<(usize, usize)>) -> Seq<(int, int)> {
    s.map_values(|p: (usize, usize)| (p.0 as int, p.1 as int))
}

/// The peeling invariant of the queue: each queued ticket's incoming edges
/// come from tickets queued and peeled before it.
pub open spec fn queue_ordered(q: Seq<usize>, head: int, g: Seq<(int, int)>) -> bool {
    forall|i: int, kk: int|
        #![trigger q[i], g[kk]]
        0 <= i < q.len() && 0 <= kk < g.len() && g[kk].1 == q[i] ==> exists|j: int|
            0 <= j < i && j < head && q[j] as int == g[kk].0
}

/// Peels the graph of `m` tickets with edges `gv` from its sources and
/// gives each ticket its depth (see `depths_ok`).
fn peel_depths(m: usize, gv: &Vec<(usize, usize)>) -> (r: Vec<usize>)
    requires
        forall|j: int| 0 <= j < gv@.len() ==> (#[trigger] gv@[j]).0 < m && gv@[j].1 < m,
    ensures
        r@.len() == m,
        exists|order: Seq<int>|
            peel_order(order, m as int, pairs(gv@)) && peel_complete(order, m as int, pairs(gv@)) && depths_ok(
                r@,
                order,
                pairs(gv@),
            ),
{
    let ghost g = pairs(gv@);
    let glen = gv.len();
    let mut remaining: Vec<usize> = Vec::new();
    let mut depth: Vec<usize> = Vec::new();
    let mut x: usize = 0;
    while x < m
        invariant
            x <= m,
            remaining@.len() == x,
            depth@.len() == x,
            forall|y: int| 0 <= y < x ==> remaining@[y] == 0 && depth@[y] == 0,
        decreases m - x,
    {
        remaining.push(0);
        depth.push(0);
        x = x + 1;
    }
    let mut k: usize = 0;
    while k < glen
        invariant
            glen == gv@.len(),
            g == pairs(gv@),
            k <= glen,
            remaining@.len() == m,
            forall|j: int| 0 <= j < gv@.len() ==> (#[trigger] gv@[j]).0 < m && gv@[j].1 < m,
            forall|y: int|
                0 <= y < m ==> #[trigger] remaining@[y] == open_count(g, k as int, y, Seq::empty(), -1, 0)
                    && remaining@[y] <= k,
        decreases glen - k,
    {
        let t = gv[k].1;
        assert(g[k as int] == (gv@[k as int].0 as int, gv@[k as int].1 as int));
        let c = remaining[t];
        remaining.set(t, c + 1);
        k = k + 1;
    }
    let mut q: Vec<usize> = Vec::new();
    let mut y: usize = 0;
    while y < m
        invariant
            y <= m,
            remaining@.len() == m,
            q@.no_duplicates(),
            forall|i: int| 0 <= i < q@.len() ==> #[trigger] q@[i] < y,
            forall|z: int| 0 <= z < y ==> (q@.contains(z as usize) <==> #[trigger] remaining@[z] == 0),
        decreases m - y,
    {
        let ghost q0 = q@;
        if remaining[y] == 0 {
            q.push(y);
        }
        proof {
            assert forall|z: int| 0 <= z < y + 1 implies (q@.contains(z as usize) <==> #[trigger] remaining@[z] == 0) by {
                if q@.contains(z as usize) && z < y {
                    let w = choose|w: int| 0 <= w < q@.len() && q@[w] == z as usize;
                    if w < q0.len() {
                        assert(q0[w] == z as usize);
                    }
                }
                if q0.contains(z as usize) {
                    let w = choose|w: int| 0 <= w < q0.len() && q0[w] == z as usize;
                    assert(q@[w] == z as usize);
                }
                if z == y && remaining@[z] == 0 {
                    assert(q@[q@.len() - 1] == z as usize);
                }
                if z == y && q@.contains(z as usize) {
                    let w = choose|w: int| 0 <= w < q@.len() && q@[w] == z as usize;
                    if w < q0.len() {
                        assert(q0[w] < y);
                    }
                }
            }
            assert forall|i: int, j: int| 0 <= i < q@.len() && 0 <= j < q@.len() && i != j implies q@[i] != q@[j] by {
                if i < q0.len() && j < q0.len() {
                } else if i < q0.len() {
                    assert(q0[i] < y);
                } else if j < q0.len() {
                    assert(q0[j] < y);
                }
            }
        }
        y = y + 1;
    }
    proof {
        assert forall|v: int| 0 <= v < m implies #[trigger] depth@[v] == best(g, glen as int, v, Seq::empty(), -1, 0, depth@) by {
            lemma_best_empty(g, glen as int, v, depth@);
        }
        assert forall|i: int, kk: int| 0 <= i < q@.len() && 0 <= kk < g.len() && g[kk].1 == q@[i] implies exists|j: int|
            0 <= j < i && j < 0 && q@[j] as int == g[kk].0 by {
            assert(q@.contains(q@[i]));
            assert(remaining@[q@[i] as int] == 0);
            lemma_open_zero(g, glen as int, q@[i] as int, Seq::empty(), -1, 0, kk);
        }
        assert(ints(q@.subrange(0, 0)) =~= Seq::<int>::empty());
    }
    let mut head: usize = 0;
    while head < q.len()
        invariant
            glen == gv@.len(),
            g == pairs(gv@),
            g.len() == glen,
            forall|j: int| 0 <= j < gv@.len() ==> (#[trigger] gv@[j]).0 < m && gv@[j].1 < m,
            remaining@.len() == m,
            depth@.len() == m,
            head <= q@.len(),
            q@.no_duplicates(),
            forall|i: int| 0 <= i < q@.len() ==> #[trigger] q@[i] < m,
            forall|v: int|
                0 <= v < m ==> #[trigger] remaining@[v] == open_count(
                    g,
                    glen as int,
                    v,
                    ints(q@.subrange(0, head as int)),
                    -1,
                    0,
                ),
            forall|v: int| 0 <= v < m ==> (q@.contains(v as usize) <==> #[trigger] remaining@[v] == 0),
            queue_ordered(q@, head as int, g),
            forall|v: int|
                0 <= v < m ==> #[trigger] depth@[v] == best(
                    g,
                    glen as int,
                    v,
                    ints(q@.subrange(0, head as int)),
                    -1,
                    0,
                    depth@,
                ),
            forall|v: int| 0 <= v < m ==> #[trigger] depth@[v] <= head,
        decreases m - head,
    {
        proof {
            lemma_distinct_bounded(q@, m);
        }
        let cur = q[head];
        let ghost done = ints(q@.subrange(0, head as int));
        let ghost h = head as int;
        proof {
            assert(!done.contains(cur as int)) by {
                if done.contains(cur as int) {
                    let w = choose|w: int| 0 <= w < done.len() && done[w] == cur as int;
                    assert(q@[w] == cur);
                }
            }
        }
        head = head + 1;
        proof {
            assert forall|v: int| 0 <= v < m implies #[trigger] remaining@[v] == open_count(g, glen as int, v, done, cur as int, 0) by {
                lemma_open_k0(g, glen as int, v, done, cur as int);
            }
            assert forall|v: int| 0 <= v < m implies #[trigger] depth@[v] == best(g, glen as int, v, done, cur as int, 0, depth@) by {
                lemma_best_k0(g, glen as int, v, done, cur as int, depth@);
            }
        }
        let mut k: usize = 0;
        while k < glen
            invariant
                glen == gv@.len(),
                g == pairs(gv@),
                g.len() == glen,
                forall|j: int| 0 <= j < gv@.len() ==> (#[trigger] gv@[j]).0 < m && gv@[j].1 < m,
                remaining@.len() == m,
                depth@.len() == m,
                head == h + 1,
                h < q@.len(),
                q@[h] == cur,
                done == ints(q@.subrange(0, h)),
                !done.contains(cur as int),
                k <= glen,
                q@.no_duplicates(),
                forall|i: int| 0 <= i < q@.len() ==> #[trigger] q@[i] < m,
                forall|v: int|
                    0 <= v < m ==> #[trigger] remaining@[v] == open_count(g, glen as int, v, done, cur as int, k as int),
                forall|v: int| 0 <= v < m ==> (q@.contains(v as usize) <==> #[trigger] remaining@[v] == 0),
                queue_ordered(q@, head as int, g),
                forall|v: int|
                    0 <= v < m ==> #[trigger] depth@[v] == best(g, glen as int, v, done, cur as int, k as int, depth@),
                forall|v: int| 0 <= v < m ==> #[trigger] depth@[v] <= head,
                depth@[cur as int] <= h,
            decreases glen - k,
        {
            let (src, t) = gv[k];
            assert(g[k as int] == (src as int, t as int));
            if src == cur {
                proof {
                    assert(!done.contains(t as int) && t != cur) by {
                        if done.contains(t as int) {
                            let i = choose|i: int| 0 <= i < done.len() && done[i] == t as int;
                            assert(q@[i] == t);
                            assert(exists|j: int| 0 <= j < i && j < head && q@[j] as int == g[k as int].0);
                            let j = choose|j: int| 0 <= j < i && j < head && q@[j] as int == g[k as int].0;
                            assert(q@[j] == q@[h]);
                        }
                        if t == cur {
                            assert(q@[h] == t);
                            assert(exists|j: int| 0 <= j < h && j < head && q@[j] as int == g[k as int].0);
                            let j = choose|j: int| 0 <= j < h && j < head && q@[j] as int == g[k as int].0;
                            assert(q@[j] == q@[h]);
                        }
                    }
                }
                let ghost d0 = depth@;
                let next = depth[cur] + 1;
                if next > depth[t] {
                    depth.set(t, next);
                }
                proof {
                    assert forall|v: int| 0 <= v < m implies #[trigger] depth@[v] == best(
                        g,
                        glen as int,
                        v,
                        done,
                        cur as int,
                        k + 1,
                        depth@,
                    ) by {
                        lemma_best_step(g, glen as int, v, done, cur as int, k as int, d0);
                        lemma_best_frame(g, glen as int, v, done, cur as int, k + 1, d0, t as int, depth@[t as int]);
                        assert(depth@ == d0.update(t as int, depth@[t as int]));
                    }
                }
                proof {
                    lemma_open_step(g, glen as int, t as int, done, cur as int, k as int);
                }
                let ghost q0 = q@;
                let c = remaining[t];
                if c > 0 {
                    remaining.set(t, c - 1);
                    if c == 1 {
                        proof {
                            assert(!q0.contains(t));
                        }
                        q.push(t);
                    }
                }
                proof {
                    assert forall|v: int| 0 <= v < m implies #[trigger] remaining@[v] == open_count(
                        g,
                        glen as int,
                        v,
                        done,
                        cur as int,
                        k + 1,
                    ) by {
                        lemma_open_step(g, glen as int, v, done, cur as int, k as int);
                    }
                    assert forall|i: int| 0 <= i < q0.len() implies q@[i] == q0[i] by {}
                    assert forall|v: int| 0 <= v < m implies (q@.contains(v as usize) <==> #[trigger] remaining@[v] == 0) by {
                        if q@.contains(v as usize) && v != t {
                            let w = choose|w: int| 0 <= w < q@.len() && q@[w] == v as usize;
                            if w < q0.len() {
                                assert(q0[w] == v as usize);
                            }
                        }
                        if q0.contains(v as usize) {
                            let w = choose|w: int| 0 <= w < q0.len() && q0[w] == v as usize;
                            assert(q@[w] == v as usize);
                        }
                        if v == t && remaining@[v] == 0 {
                            assert(q@[q@.len() - 1] == t);
                        }
                    }
                    assert forall|i: int, j: int| 0 <= i < q@.len() && 0 <= j < q@.len() && i != j implies q@[i] != q@[j] by {
                        if i >= q0.len() {
                            assert(q@[i] == t);
                            if j < q0.len() {
                                assert(q0.contains(q0[j]));
                            }
                        }
                        if j >= q0.len() {
                            assert(q@[j] == t);
                            if i < q0.len() {
                                assert(q0.contains(q0[i]));
                            }
                        }
                    }
                    assert forall|i: int, kk: int|
                        0 <= i < q@.len() && 0 <= kk < g.len() && g[kk].1 == q@[i] implies exists|j: int|
                        0 <= j < i && j < head && q@[j] as int == g[kk].0 by {
                        if i < q0.len() {
                            assert(q0[i] == q@[i]);
                            let j = choose|j: int| 0 <= j < i && j < head && q0[j] as int == g[kk].0;
                            assert(q@[j] == q0[j]);
                        } else {
                            assert(q@[i] == t);
                            assert(remaining@[t as int] == 0);
                            lemma_open_zero(g, glen as int, t as int, done, cur as int, k + 1, kk);
                            if done.contains(g[kk].0) {
                                let j = choose|j: int| 0 <= j < done.len() && done[j] == g[kk].0;
                                assert(q@[j] == q0[j]);
                            } else {
                                assert(q@[h] == cur);
                            }
                        }
                    }
                }
            } else {
                proof {
                    assert forall|v: int| 0 <= v < m implies #[trigger] depth@[v] == best(
                        g,
                        glen as int,
                        v,
                        done,
                        cur as int,
                        k + 1,
                        depth@,
                    ) by {
                        lemma_best_other(g, glen as int, v, done, cur as int, k as int, depth@);
                    }
                    assert forall|v: int| 0 <= v < m implies #[trigger] remaining@[v] == open_count(
                        g,
                        glen as int,
                        v,
                        done,
                        cur as int,
                        k + 1,
                    ) by {
                        lemma_open_other(g, glen as int, v, done, cur as int, k as int);
                    }
                }
            }
            k = k + 1;
        }
        proof {
            let done2 = ints(q@.subrange(0, head as int));
            assert(done2 =~= done.push(cur as int));
            assert forall|v: int| 0 <= v < m implies #[trigger] depth@[v] == best(g, glen as int, v, done2, -1, 0, depth@) by {
                lemma_best_all_cur(g, glen as int, v, done, cur as int, glen as int, depth@);
            }
            assert forall|v: int| 0 <= v < m implies #[trigger] remaining@[v] == open_count(g, glen as int, v, done2, -1, 0) by {
                lemma_open_all_cur(g, glen as int, v, done, cur as int, glen as int);
            }
        }
    }
    proof {
        let order = ints(q@);
        assert(q@.subrange(0, head as int) =~= q@);
        assert(order.no_duplicates()) by {
            assert forall|i: int, j: int| 0 <= i < order.len() && 0 <= j < order.len() && i != j implies order[i] != order[j] by {
                assert(q@[i] != q@[j]);
            }
        }
        assert forall|i: int, kk: int|
            #![trigger order[i], g[kk]]
            0 <= i < order.len() && 0 <= kk < g.len() && g[kk].1 == order[i] implies exists|j: int|
                0 <= j < i && order[j] == g[kk].0 by {
            assert(q@[i] as int == order[i]);
            let j = choose|j: int| 0 <= j < i && j < head && q@[j] as int == g[kk].0;
            assert(order[j] == g[kk].0);
        }
        assert(peel_order(order, m as int, g));
        assert forall|v: int| 0 <= v < m && !order.contains(v) implies exists|kk: int|
            0 <= kk < g.len() && #[trigger] g[kk].1 == v && !order.contains(g[kk].0) by {
            if q@.contains(v as usize) {
                let w = choose|w: int| 0 <= w < q@.len() && q@[w] == v as usize;
                assert(order[w] == v);
            }
            assert(remaining@[v] != 0);
            lemma_open_witness(g, glen as int, v, order);
        }
        assert forall|v: int| 0 <= v < depth@.len() implies #[trigger] depth@[v] == depth_from(g, g.len() as int, order, depth@, v) by {
            lemma_best_no_cur(g, glen as int, v, order, -1, depth@);
        }
        assert(depths_ok(depth@, order, g));
    }
    depth
}

fn has_id(v: &Vec<u128>, x: u128) -> (r: bool)
    ensures
        r == v@.contains(x),
{
    let mut i: usize = 0;
    while i < v.len()
        invariant
            i <= v@.len(),
            forall|j: int| 0 <= j < i ==> v@[j] != x,
        decreases v@.len() - i,
    {
        if v[i] == x {
            assert(v@[i as int] == x);
            return true;
        }
        i = i + 1;
    }
    false
}

fn distinct_node_ids(ids: &[u128]) -> (r: Vec<u128>)
    ensures
        r@ == distinct_ids(ids@),
{
    let mut out: Vec<u128> = Vec::new();
    let mut i: usize = 0;
    assert(ids@.subrange(0, 0) =~= Seq::<u128>::empty());
    while i < ids.len()
        invariant
            i <= ids@.len(),
            out@ == distinct_ids(ids@.subrange(0, i as int)),
        decreases ids@.len() - i,
    {
        let ghost sub = ids@.subrange(0, i + 1);
        assert(sub.drop_last() =~= ids@.subrange(0, i as int));
        if !has_id(&out, ids[i]) {
            out.push(ids[i]);
        }
        i = i + 1;
    }
    assert(ids@.subrange(0, ids@.len() as int) =~= ids@);
    out
}

/// The place of `x` among distinct ids.
fn position(nodes: &Vec<u128>, x: u128) -> (r: Option<usize>)
    requires
        nodes@.no_duplicates(),
    ensures
        match r {
            Some(k) => nodes@.contains(x) && k == nodes@.index_of(x) && k < nodes@.len(),
            None => !nodes@.contains(x),
        },
{
    let mut i: usize = 0;
    while i < nodes.len()
        invariant
            i <= nodes@.len(),
            nodes@.no_duplicates(),
            forall|j: int| 0 <= j < i ==> nodes@[j] != x,
        decreases nodes@.len() - i,
    {
        if nodes[i] == x {
            assert(nodes@[i as int] == x);
            assert(nodes@.contains(x));
            proof {
                let c = nodes@.index_of(x);
                assert(0 <= c < nodes@.len() && nodes@[c] == x);
                if c != i as int {
                    assert(nodes@[c] != nodes@[i as int]);
                }
            }
            return Some(i);
        }
        i = i + 1;
    }
    None
}

fn index_edge_list(nodes: &Vec<u128>, edges: &[GraphEdge]) -> (r: Vec<(usize, usize)>)
    requires
        nodes@.no_duplicates(),
    ensures
        pairs(r@) == index_edges(nodes@, edge_views(edges@)),
        forall|j: int| 0 <= j < r@.len() ==> (#[trigger] r@[j]).0 < nodes@.len() && r@[j].1 < nodes@.len(),
{
    let ghost ev = edge_views(edges@);
    let mut out: Vec<(usize, usize)> = Vec::new();
    let mut i: usize = 0;
    assert(ev.subrange(0, 0) =~= Seq::<GraphEdgeView>::empty());
    assert(pairs(out@) =~= index_edges(nodes@, ev.subrange(0, 0)));
    while i < edges.len()
        invariant
            i <= edges@.len(),
            ev == edge_views(edges@),
            nodes@.no_duplicates(),
            pairs(out@) == index_edges(nodes@, ev.subrange(0, i as int)),
            forall|j: int| 0 <= j < out@.len() ==> (#[trigger] out@[j]).0 < nodes@.len() && out@[j].1 < nodes@.len(),
        decreases edges@.len() - i,
    {
        let ghost sub = ev.subrange(0, i + 1);
        assert(sub.drop_last() =~= ev.subrange(0, i as int));
        assert(sub.last() == edges@[i as int]@);
        let ghost before = pairs(out@);
        match (position(nodes, edges[i].from), position(nodes, edges[i].to)) {
            (Some(a), Some(b)) => {
                out.push((a, b));
                assert(pairs(out@) =~= before.push((a as int, b as int)));
            },
            _ => {},
        }
        i = i + 1;
    }
    assert(ev.subrange(0, edges@.len() as int) =~= ev);
    out
}

/// The depths of a workspace graph: each distinct ticket with its depth,
/// and the greatest depth.
pub struct WorkspaceDepths {
    pub depths: Vec<(u128, usize)>,
    pub max_depth_reached: usize,
}

/// The depths of a list of ticket depths.
pub open spec fn depth_values(d: Seq<(u128, usize)>) -> Seq<usize> {
    d.map_values(|p: (u128, usize)| p.1)
}

/// The greatest of some depths, `0` for none.
pub open spec fn max_depth(d: Seq<usize>) -> nat
    decreases d.len(),
{
    if d.len() == 0 {
        0
    } else {
        let prev = max_depth(d.drop_last());
        if d.last() > prev {
            d.last() as nat
        } else {
            prev
        }
    }
}

/// Computes the depth of every ticket of a workspace graph: the tickets are
/// peeled from those with no incoming edge, and each ticket lies one below
/// its deepest peeled predecessor (`0` when it has none); tickets on or
/// below a cycle are never peeled but still get a depth from their peeled
/// predecessors. Edges with an end outside the graph are ignored.
pub fn compute_workspace_depths(node_ids: &[u128], edges: &[GraphEdge]) -> (r: WorkspaceDepths)
    ensures
        r.depths@.len() == distinct_ids(node_ids@).len(),
        forall|v: int| 0 <= v < r.depths@.len() ==> (#[trigger] r.depths@[v]).0 == distinct_ids(node_ids@)[v],
        exists|order: Seq<int>|
            peel_order(order, distinct_ids(node_ids@).len() as int, index_edges(distinct_ids(node_ids@), edge_views(edges@)))
                && peel_complete(order, distinct_ids(node_ids@).len() as int, index_edges(distinct_ids(node_ids@), edge_views(edges@)))
                && depths_ok(depth_values(r.depths@), order, index_edges(distinct_ids(node_ids@), edge_views(edges@))),
        r.max_depth_reached == max_depth(depth_values(r.depths@)),
{
    let nodes = distinct_node_ids(node_ids);
    proof {
        lemma_distinct_ids(node_ids@);
    }
    let gv = index_edge_list(&nodes, edges);
    let m = nodes.len();
    let depth = peel_depths(m, &gv);
    let mut out: Vec<(u128, usize)> = Vec::new();
    let mut best_depth: usize = 0;
    let mut i: usize = 0;
    assert(depth@.subrange(0, 0) =~= Seq::<usize>::empty());
    while i < m
        invariant
            i <= m,
            m == nodes@.len(),
            depth@.len() == m,
            out@.len() == i,
            forall|v: int| 0 <= v < i ==> (#[trigger] out@[v]).0 == nodes@[v] && out@[v].1 == depth@[v],
            best_depth == max_depth(depth@.subrange(0, i as int)),
        decreases m - i,
    {
        let ghost sub = depth@.subrange(0, i + 1);
        assert(sub.drop_last() =~= depth@.subrange(0, i as int));
        let d = depth[i];
        out.push((nodes[i], d));
        if d > best_depth {
            best_depth = d;
        }
        i = i + 1;
    }
    assert(depth_values(out@) =~= depth@);
    assert(depth@.subrange(0, m as int) =~= depth@);
    WorkspaceDepths { depths: out, max_depth_reached: best_depth }
}

proof fn lemma_depth_from_congruent(
    g: Seq<(int, int)>,
    n: int,
    s1: Seq<int>,
    s2: Seq<int>,
    d1: Seq<usize>,
    d2: Seq<usize>,
    v: int,
)
    requires
        n <= g.len(),
        forall|j: int|
            0 <= j < n && #[trigger] g[j].1 == v ==> (s1.contains(g[j].0) <==> s2.contains(g[j].0)) && (s1.contains(
                g[j].0,
            ) ==> d1[g[j].0] == d2[g[j].0]),
    ensures
        depth_from(g, n, s1, d1, v) == depth_from(g, n, s2, d2, v),
    decreases n,
{
    if n > 0 {
        lemma_depth_from_congruent(g, n - 1, s1, s2, d1, d2, v);
        assert(g[n - 1].1 == v ==> (s1.contains(g[n - 1].0) <==> s2.contains(g[n - 1].0)));
    }
}

proof fn lemma_peeled_members(m: int, g: Seq<(int, int)>, o1: Seq<int>, o2: Seq<int>, i: int)
    requires
        peel_order(o1, m, g),
        peel_complete(o2, m, g),
        0 <= i <= o1.len(),
    ensures
        forall|j: int| 0 <= j < i ==> o2.contains(#[trigger] o1[j]),
    decreases i,
{
    if i > 0 {
        lemma_peeled_members(m, g, o1, o2, i - 1);
        let v = o1[i - 1];
        if !o2.contains(v) {
            assert(0 <= v < m);
            let k = choose|k: int| 0 <= k < g.len() && #[trigger] g[k].1 == v && !o2.contains(g[k].0);
            assert(exists|j: int| 0 <= j < i - 1 && o1[j] == g[k].0);
            let j = choose|j: int| 0 <= j < i - 1 && o1[j] == g[k].0;
            assert(o2.contains(o1[j]));
        }
    }
}

proof fn lemma_peeled_depths_agree(
    m: int,
    g: Seq<(int, int)>,
    o1: Seq<int>,
    o2: Seq<int>,
    d1: Seq<usize>,
    d2: Seq<usize>,
    i: int,
)
    requires
        peel_order(o1, m, g),
        forall|x: int| o1.contains(x) <==> o2.contains(x),
        d1.len() == m,
        d2.len() == m,
        depths_ok(d1, o1, g),
        depths_ok(d2, o2, g),
        0 <= i <= o1.len(),
    ensures
        forall|j: int| 0 <= j < i ==> d1[#[trigger] o1[j]] == d2[o1[j]],
    decreases i,
{
    if i > 0 {
        lemma_peeled_depths_agree(m, g, o1, o2, d1, d2, i - 1);
        let v = o1[i - 1];
        assert(0 <= v < m);
        assert forall|k: int|
            0 <= k < g.len() && #[trigger] g[k].1 == v implies (o1.contains(g[k].0) <==> o2.contains(g[k].0)) && (
            o1.contains(g[k].0) ==> d1[g[k].0] == d2[g[k].0]) by {
            assert(exists|j: int| 0 <= j < i - 1 && o1[j] == g[k].0);
            let j = choose|j: int| 0 <= j < i - 1 && o1[j] == g[k].0;
            assert(d1[o1[j]] == d2[o1[j]]);
        }
        lemma_depth_from_congruent(g, g.len() as int, o1, o2, d1, d2, v);
        assert(d1[v] == depth_from(g, g.len() as int, o1, d1, v));
        assert(d2[v] == depth_from(g, g.len() as int, o2, d2, v));
    }
}

/// The depths of a graph are determined by it: any two peelings that
/// cannot grow peel the same tickets, and depths that agree with them are
/// the same, whatever order the sources were taken in.
pub proof fn lemma_depths_unique(m: int, g: Seq<(int, int)>, o1: Seq<int>, o2: Seq<int>, d1: Seq<usize>, d2: Seq<usize>)
    requires
        peel_order(o1, m, g),
        peel_complete(o1, m, g),
        peel_order(o2, m, g),
        peel_complete(o2, m, g),
        d1.len() == m,
        d2.len() == m,
        depths_ok(d1, o1, g),
        depths_ok(d2, o2, g),
    ensures
        forall|x: int| o1.contains(x) <==> o2.contains(x),
        d1 == d2,
{
    lemma_peeled_members(m, g, o1, o2, o1.len() as int);
    lemma_peeled_members(m, g, o2, o1, o2.len() as int);
    assert forall|x: int| o1.contains(x) <==> o2.contains(x) by {
        if o1.contains(x) {
            let j = choose|j: int| 0 <= j < o1.len() && o1[j] == x;
            assert(o2.contains(o1[j]));
        }
        if o2.contains(x) {
            let j = choose|j: int| 0 <= j < o2.len() && o2[j] == x;
            assert(o1.contains(o2[j]));
        }
    }
    lemma_peeled_depths_agree(m, g, o1, o2, d1, d2, o1.len() as int);
    assert forall|v: int| 0 <= v < m implies d1[v] == d2[v] by {
        assert forall|k: int|
            0 <= k < g.len() && #[trigger] g[k].1 == v implies (o1.contains(g[k].0) <==> o2.contains(g[k].0)) && (
            o1.contains(g[k].0) ==> d1[g[k].0] == d2[g[k].0]) by {
            if o1.contains(g[k].0) {
                let j = choose|j: int| 0 <= j < o1.len() && o1[j] == g[k].0;
                assert(d1[o1[j]] == d2[o1[j]]);
            }
        }
        lemma_depth_from_congruent(g, g.len() as int, o1, o2, d1, d2, v);
        assert(d1[v] == depth_from(g, g.len() as int, o1, d1, v));
        assert(d2[v] == depth_from(g, g.len() as int, o2, d2, v));
    }
    assert(d1 =~= d2);
}
} // verus!
