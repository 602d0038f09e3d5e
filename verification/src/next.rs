//! Choosing the next tickets to work on: candidate scope, board filtering,
//! result limits and the ranked rows that `next` reports.
use vstd::prelude::*;
use crate::workflow::{
    WorkflowModel, IndexedTicket, TicketConvergenceMetrics, ModelView, WorkflowTreeNode, contains_id,
    titled_with, eligible_in, actionable_in, without, count_from, count_to, reverse_dependent_set,
};
use crate::workflow::order::candidate_order;
use crate::workflow::board::{
    BoardSnapshot, BoardExcludedCandidate, apply_board_filter, unheld, tracked_ids, holding_entries,
    excluded_matches, strings_view, board_warnings_spec,
};

verus! {

/// The elements of `p` that also occur in `s`, in the order of `p`.
pub open spec fn kept_in(p: Seq<u128>, s: Seq<u128>) -> Seq<u128>
    decreases p.len(),
{
    if p.len() == 0 {
        Seq::empty()
    } else {
        let rest = kept_in(p.drop_last(), s);
        if s.contains(p.last()) {
            rest.push(p.last())
        } else {
            rest
        }
    }
}

/// The meet of two optional scopes: absent means unrestricted.
pub open spec fn intersect_spec(primary: Option<Seq<u128>>, secondary: Option<Seq<u128>>) -> Option<Seq<u128>> {
    match (primary, secondary) {
        (Some(p), Some(s)) => Some(kept_in(p, s)),
        (Some(p), None) => Some(p),
        (None, Some(s)) => Some(s),
        (None, None) => None,
    }
}

/// Combine the title-filter scope with a root's remaining blockers; a side
/// that is absent does not restrict the other.
pub fn intersect_scopes(primary: Option<Vec<u128>>, secondary: Option<&Vec<u128>>) -> (r: Option<Vec<u128>>)
    ensures
        (match r { Some(v) => Some(v@), None => None })
            == intersect_spec(
                match primary { Some(v) => Some(v@), None => None },
                match secondary { Some(v) => Some(v@), None => None },
            ),
{
    match (primary, secondary) {
        (Some(p), Some(s)) => {
            let mut out: Vec<u128> = Vec::new();
            let mut i: usize = 0;
            while i < p.len()
                invariant
                    i <= p@.len(),
                    out@ == kept_in(p@.subrange(0, i as int), s@),
                decreases p@.len() - i,
            {
                proof {
                    assert(p@.subrange(0, i + 1).drop_last() =~= p@.subrange(0, i as int));
                    assert(p@.subrange(0, i + 1).last() == p@[i as int]);
                }
                if contains_id(s, p[i]) {
                    out.push(p[i]);
                }
                i = i + 1;
            }
            assert(p@.subrange(0, p@.len() as int) =~= p@);
            Some(out)
        },
        (Some(p), None) => Some(p),
        (None, Some(s)) => Some(s.clone()),
        (None, None) => None,
    }
}

/// How many candidates `next` reports: an explicit limit is capped at 100;
/// without one, 20 when no root was given and all of them otherwise.
pub open spec fn next_limit_spec(limit: Option<usize>, has_root: bool) -> Option<int> {
    match limit {
        Some(l) => Some(if l <= 100 { l as int } else { 100 }),
        None => if has_root { None } else { Some(20) },
    }
}

/// The first `n` elements of `s` (all of them when `s` is shorter).
pub open spec fn take_at_most(s: Seq<u128>, n: Option<int>) -> Seq<u128> {
    match n {
        Some(k) => if k < s.len() { s.subrange(0, k) } else { s },
        None => s,
    }
}

/// Cut the ranked candidates down to the reported number.
pub fn apply_next_limit(candidates: &mut Vec<u128>, limit: Option<usize>, has_root: bool)
    ensures
        final(candidates)@ == take_at_most(old(candidates)@, next_limit_spec(limit, has_root)),
{
    match limit {
        Some(l) => {
            let n: usize = if l <= 100 { l } else { 100 };
            candidates.truncate(n);
        },
        None => {
            if !has_root {
                candidates.truncate(20);
            }
        },
    }
}

/// `Err` with the root's id when a root was given that the model does not
/// know.
pub fn ensure_next_root_exists(model: &WorkflowModel, root: Option<u128>) -> (r: Result<(), u128>)
    requires
        model.wf_base(),
    ensures
        r is Err <==> (root matches Some(id) && !model@.known(id)),
        r matches Err(id) ==> root == Some(id),
{
    match root {
        Some(id) => {
            if model.ticket(&id).is_none() {
                Err(id)
            } else {
                Ok(())
            }
        },
        None => Ok(()),
    }
}

/// The candidates `next` starts from: actionable tickets inside the
/// combined scope of the title filter and the root's remaining blockers.
pub open spec fn candidate_pool(m: ModelView, filter: Option<Seq<char>>, remaining: Option<Seq<u128>>) -> Seq<u128> {
    let filtered = match filter {
        Some(f) => Some(titled_with(m.tickets, f)),
        None => None,
    };
    actionable_in(m, eligible_in(m.tickets, intersect_spec(filtered, remaining)), Seq::empty())
}

/// Whether `s` is in ranking order.
pub open spec fn ranked(model: &WorkflowModel, s: Seq<u128>) -> bool {
    forall|i: int, j: int| 0 <= i < j < s.len()
        ==> candidate_order(model.candidate_key(s[i]), model.candidate_key(s[j])) <= 0
}

/// Ranked candidates after board filtering.
pub struct NextCandidates {
    pub candidates: Vec<u128>,
    pub excluded_by_board: Vec<BoardExcludedCandidate>,
    pub warnings: Vec<String>,
    pub frontier_count: usize,
}

/// What board filtering (never skipped here) makes of the ranked list
/// `sorted`.
pub open spec fn board_filtered(r: NextCandidates, sorted: Seq<u128>, board: Option<&BoardSnapshot>) -> bool {
    &&& strings_view(r.warnings@) == board_warnings_spec(board)
    &&& board is None ==> r.candidates@ == sorted && r.excluded_by_board@.len() == 0
    &&& board matches Some(s) ==> {
        &&& r.candidates@ == unheld(sorted, tracked_ids(s.entries@))
        &&& r.excluded_by_board@.len() == holding_entries(s.entries@, sorted).len()
        &&& forall|i: int| 0 <= i < r.excluded_by_board@.len()
            ==> excluded_matches(#[trigger] r.excluded_by_board@[i], holding_entries(s.entries@, sorted)[i])
    }
}


/// Every id that survives board filtering was a candidate.
proof fn lemma_unheld_from(s: Seq<u128>, held: Seq<u128>)
    ensures
        forall|k: int| 0 <= k < unheld(s, held).len()
            ==> exists|j: int| 0 <= j < s.len() && s[j] == #[trigger] unheld(s, held)[k],
    decreases s.len(),
{
    if s.len() > 0 {
        lemma_unheld_from(s.drop_last(), held);
        let rest = unheld(s.drop_last(), held);
        assert forall|k: int| 0 <= k < unheld(s, held).len()
            implies exists|j: int| 0 <= j < s.len() && s[j] == #[trigger] unheld(s, held)[k] by {
            if k < rest.len() {
                let j = choose|j: int| 0 <= j < s.drop_last().len() && s.drop_last()[j] == rest[k];
                assert(s[j] == rest[k]);
            } else {
                assert(s[s.len() - 1] == s.last());
            }
        }
    }
}

/// Board filtering keeps the ranking order of what it keeps.
proof fn lemma_unheld_ranked(model: &WorkflowModel, s: Seq<u128>, held: Seq<u128>)
    requires
        ranked(model, s),
    ensures
        ranked(model, unheld(s, held)),
    decreases s.len(),
{
    if s.len() > 0 {
        let init = s.drop_last();
        assert(ranked(model, init));
        lemma_unheld_ranked(model, init, held);
        lemma_unheld_from(init, held);
        let rest = unheld(init, held);
        if !held.contains(s.last()) {
            let u = rest.push(s.last());
            assert forall|i: int, j: int| 0 <= i < j < u.len()
                implies candidate_order(model.candidate_key(u[i]), model.candidate_key(u[j])) <= 0 by {
                if j < rest.len() {
                    assert(u[i] == rest[i] && u[j] == rest[j]);
                } else {
                    assert(u[i] == rest[i]);
                    let a = choose|a: int| 0 <= a < init.len() && init[a] == #[trigger] rest[i];
                    assert(s[a] == rest[i]);
                    assert(s[s.len() - 1] == u[j]);
                }
            }
        }
    }
}

/// Rank the actionable candidates in scope and drop those that the board
/// shows as held; `frontier_count` is how many remain before any limit.
pub fn collect_board_filtered_candidates(
    model: &WorkflowModel,
    filter: Option<&str>,
    remaining_blockers: Option<&Vec<u128>>,
    board: Option<&BoardSnapshot>,
) -> (r: NextCandidates)
    requires
        model.wf(),
    ensures
        exists|sorted: Seq<u128>| {
            &&& sorted.to_multiset() == candidate_pool(
                model@,
                match filter { Some(f) => Some(f@), None => None },
                match remaining_blockers { Some(v) => Some(v@), None => None },
            ).to_multiset()
            &&& ranked(model, sorted)
            &&& #[trigger] board_filtered(r, sorted, board)
        },
        ranked(model, r.candidates@),
        r.frontier_count == r.candidates@.len(),
{
    let filtered_scope = crate::workflow::filter_scope(model.tickets(), filter);
    let candidate_scope = intersect_scopes(filtered_scope, remaining_blockers);
    let mut candidates = model.actionable_candidate_ids(candidate_scope.as_ref());
    model.sort_candidate_ids(&mut candidates);
    let ghost sorted = candidates@;
    let board_result = apply_board_filter(candidates, board, false);
    let frontier_count = board_result.candidates.len();
    let r = NextCandidates {
        candidates: board_result.candidates,
        excluded_by_board: board_result.excluded_by_board,
        warnings: board_result.warnings,
        frontier_count,
    };
    assert(board_filtered(r, sorted, board));
    proof {
        if let Some(b) = board {
            lemma_unheld_ranked(model, sorted, tracked_ids(b.entries@));
        }
    }
    r
}

/// How many elements of `s` still wait on a prerequisite outside
/// `satisfied`.
pub open spec fn count_still_blocked(m: ModelView, s: Seq<u128>, satisfied: Seq<u128>) -> nat
    decreases s.len(),
{
    if s.len() == 0 {
        0
    } else {
        count_still_blocked(m, s.drop_last(), satisfied)
            + if without(m.unresolved(s.last()), satisfied).len() > 0 { 1nat } else { 0nat }
    }
}

/// How many of `dependents` would still be blocked once `satisfied` were
/// done.
pub fn blocked_dependent_count(model: &WorkflowModel, dependents: &Vec<u128>, satisfied: &Vec<u128>) -> (r: usize)
    requires
        model.wf_base(),
    ensures
        r == count_still_blocked(model@, dependents@, satisfied@),
{
    let mut n: usize = 0;
    let mut i: usize = 0;
    while i < dependents.len()
        invariant
            model.wf_base(),
            i <= dependents@.len(),
            n <= i,
            n == count_still_blocked(model@, dependents@.subrange(0, i as int), satisfied@),
        decreases dependents@.len() - i,
    {
        proof {
            assert(dependents@.subrange(0, i + 1).drop_last() =~= dependents@.subrange(0, i as int));
            assert(dependents@.subrange(0, i + 1).last() == dependents@[i as int]);
        }
        let rest = model.unresolved_dependencies_excluding(&dependents[i], satisfied);
        if rest.len() > 0 {
            n = n + 1;
        }
        i = i + 1;
    }
    assert(dependents@.subrange(0, dependents@.len() as int) =~= dependents@);
    n
}

/// The known ids of `ids`, each with its 1-based position in `ids`.
pub open spec fn known_ranked(m: ModelView, ids: Seq<u128>) -> Seq<(int, u128)>
    decreases ids.len(),
{
    if ids.len() == 0 {
        Seq::empty()
    } else {
        let rest = known_ranked(m, ids.drop_last());
        if m.known(ids.last()) {
            rest.push((ids.len() as int, ids.last()))
        } else {
            rest
        }
    }
}

/// One reported candidate with the figures that explain its rank.
pub struct CandidateRow {
    pub rank: usize,
    pub ticket: IndexedTicket,
    pub priority: String,
    pub effort: Option<u64>,
    pub dependency_count: usize,
    pub remaining_blocker_count: usize,
    pub dependee_count: usize,
    pub metrics: TicketConvergenceMetrics,
}

/// The row of ticket `id` at `rank`, its blockers counted apart from
/// `satisfied`.
pub open spec fn row_ok(model: &WorkflowModel, row: CandidateRow, rank: int, id: u128, satisfied: Seq<u128>) -> bool {
    &&& row.rank == rank
    &&& row.ticket@ == model@.ticket(id)
    &&& row.priority@ == model@.priority_or_none(id)
    &&& row.effort == model@.effort(id)
    &&& row.dependency_count == count_from(model@.deps, id)
    &&& row.remaining_blocker_count == without(model@.unresolved(id), satisfied).len()
    &&& row.dependee_count == count_to(model@.deps, id)
    &&& row.metrics == model.metrics_of(id)
}

/// The rows of the ranked `ids`, skipping ids the model does not know (a
/// skipped id still takes its rank).
pub fn candidate_rows(model: &WorkflowModel, ids: &Vec<u128>, satisfied: &Vec<u128>) -> (r: Vec<CandidateRow>)
    requires
        model.wf(),
    ensures
        r@.len() == known_ranked(model@, ids@).len(),
        forall|i: int| 0 <= i < r@.len()
            ==> row_ok(model, #[trigger] r@[i], known_ranked(model@, ids@)[i].0, known_ranked(model@, ids@)[i].1, satisfied@),
{
    proof { model.lemma_wf_base(); }
    let mut out: Vec<CandidateRow> = Vec::new();
    let mut i: usize = 0;
    while i < ids.len()
        invariant
            model.wf(),
            model.wf_base(),
            i <= ids@.len(),
            out@.len() == known_ranked(model@, ids@.subrange(0, i as int)).len(),
            forall|k: int| 0 <= k < out@.len()
                ==> row_ok(model, #[trigger] out@[k], known_ranked(model@, ids@.subrange(0, i as int))[k].0,
                    known_ranked(model@, ids@.subrange(0, i as int))[k].1, satisfied@),
        decreases ids@.len() - i,
    {
        let ghost before = known_ranked(model@, ids@.subrange(0, i as int));
        proof {
            assert(ids@.subrange(0, i + 1).drop_last() =~= ids@.subrange(0, i as int));
            assert(ids@.subrange(0, i + 1).last() == ids@[i as int]);
        }
        let id = ids[i];
        match model.ticket(&id) {
            Some(t) => {
                let ticket = t.duplicate();
                let metrics = match model.metrics(&id) {
                    Some(x) => x.duplicate(),
                    None => TicketConvergenceMetrics::zero(),
                };
                let row = CandidateRow {
                    rank: i + 1,
                    ticket,
                    priority: model.priority_or_none(&id).to_string(),
                    effort: model.effort(&id),
                    dependency_count: model.dependency_count(&id),
                    remaining_blocker_count: model.unresolved_dependencies_excluding(&id, satisfied).len(),
                    dependee_count: model.dependee_count(&id),
                    metrics,
                };
                out.push(row);
                proof {
                    let after = known_ranked(model@, ids@.subrange(0, i + 1));
                    assert(after == before.push(((i + 1) as int, id)));
                    assert forall|k: int| 0 <= k < out@.len()
                        implies row_ok(model, #[trigger] out@[k], after[k].0, after[k].1, satisfied@) by {
                        if k < out@.len() - 1 {
                            assert(after[k] == before[k]);
                        }
                    }
                }
            },
            None => {
                proof {
                    assert(known_ranked(model@, ids@.subrange(0, i + 1)) == before);
                }
            },
        }
        i = i + 1;
    }
    assert(ids@.subrange(0, ids@.len() as int) =~= ids@);
    out
}

/// The two trees a root ticket can be viewed through.
pub enum TreeKind {
    /// What the root waits on.
    Blockers,
    /// What finishing the root would unlock.
    UnblockedBy,
}

/// A tree view of a root ticket with its frontier, and for the unlock view
/// how many tickets depend on the root and how many of them stay blocked.
pub struct TreePayload {
    pub tree: WorkflowTreeNode,
    pub frontier_ids: Vec<u128>,
    pub reachable_dependents: Option<usize>,
    pub blocked_dependents: Option<usize>,
    pub kind_label: &'static str,
    pub satisfied_ids: Option<Vec<u128>>,
}

/// The blocker tree of `root`, or the tree of what finishing `root` would
/// unlock (counting `root` as done); `None` when the root is unknown.
pub fn tree_kind_payload(model: &WorkflowModel, root: u128, kind: TreeKind) -> (r: Option<TreePayload>)
    requires
        model.wf(),
    ensures
        r is Some <==> model@.known(root),
        r matches Some(p) ==> p.tree.ticket_id == root && p.frontier_ids@ == p.tree.frontier_leaf_ids@,
        kind is Blockers ==> (r matches Some(p) ==> {
            &&& model.blocker_node_ok(p.tree, Seq::empty())
            &&& p.reachable_dependents is None
            &&& p.blocked_dependents is None
            &&& p.kind_label@ == "blockers"@
            &&& p.satisfied_ids is None
        }),
        kind is UnblockedBy ==> (r matches Some(p) ==> {
            &&& model.unlock_node_ok(p.tree, seq![root], false, Seq::empty())
            &&& p.kind_label@ == "unblocked-by"@
            &&& p.satisfied_ids matches Some(v) && v@ == seq![root]
            &&& exists|ds: Seq<u128>| {
                &&& ds.no_duplicates()
                &&& ds.to_set() == reverse_dependent_set(model@.deps, root)
                &&& p.reachable_dependents == Some(ds.len() as usize)
                &&& #[trigger] count_still_blocked(model@, ds, seq![root]) == p.blocked_dependents->0
                &&& p.blocked_dependents is Some
            }
        }),
{
    proof { model.lemma_wf_base(); }
    match kind {
        TreeKind::Blockers => {
            match model.blocker_tree(root) {
                Some(tree) => {
                    let frontier_ids = tree.frontier_leaf_ids.clone();
                    Some(TreePayload {
                        tree,
                        frontier_ids,
                        reachable_dependents: None,
                        blocked_dependents: None,
                        kind_label: "blockers",
                        satisfied_ids: None,
                    })
                },
                None => None,
            }
        },
        TreeKind::UnblockedBy => {
            let mut satisfied: Vec<u128> = Vec::new();
            satisfied.push(root);
            assert(satisfied@ =~= seq![root]);
            match model.unlock_tree_with_satisfied(root, &satisfied) {
                Some(tree) => {
                    let dependents = model.reverse_dependents(root);
                    let blocked = blocked_dependent_count(model, &dependents, &satisfied);
                    let frontier_ids = tree.frontier_leaf_ids.clone();
                    let p = TreePayload {
                        tree,
                        frontier_ids,
                        reachable_dependents: Some(dependents.len()),
                        blocked_dependents: Some(blocked),
                        kind_label: "unblocked-by",
                        satisfied_ids: Some(satisfied),
                    };
                    assert(count_still_blocked(model@, dependents@, seq![root]) == p.blocked_dependents->0);
                    Some(p)
                },
                None => None,
            }
        },
    }
}

} // verus!
