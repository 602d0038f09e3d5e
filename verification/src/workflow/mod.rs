//! Dependency-convergence model shared by ticket ranking, health and trees.
//!
//! `WorkflowModel` derives reverse-dependency pressure, dependency-state
//! inversions and blocker/unlock trees from indexed tickets and their
//! `depends_on` edges.
use vstd::prelude::*;
use crate::text::str_eq;
pub mod order;
pub mod board;
use order::{TreeKey, TreeKeyExec, tree_key_order, compare_tree_keys, lemma_tree_key_order, lemma_tree_key_order_trans, inversion_order, inv_key_order, sort_inv_keys, CandidateKey, CandidateKeyExec, candidate_order, keys_view, sort_candidate_keys, lemma_multiset_map};

verus! {

/// One indexed ticket as the model reads it. Ticket ids are the 128-bit
/// value of the ticket UUID; timestamps are nanoseconds since the Unix epoch.
pub struct IndexedTicket {
    pub id: u128,
    pub type_id: String,
    pub title: Option<String>,
    pub state: Option<String>,
    pub created_at: i128,
}

/// The mathematical value of an [`IndexedTicket`].
pub struct TicketView {
    pub id: u128,
    pub type_id: Seq<char>,
    pub title: Option<Seq<char>>,
    pub state: Option<Seq<char>>,
    pub created_at: i128,
}

/// The characters of an optional string.
pub open spec fn opt_view(o: Option<String>) -> Option<Seq<char>> {
    match o {
        Some(s) => Some(s@),
        None => None,
    }
}

impl View for IndexedTicket {
    type V = TicketView;

    open spec fn view(&self) -> TicketView {
        TicketView {
            id: self.id,
            type_id: self.type_id@,
            title: opt_view(self.title),
            state: opt_view(self.state),
            created_at: self.created_at,
        }
    }
}

/// A copy of an optional string.
pub fn clone_opt_string(o: &Option<String>) -> (r: Option<String>)
    ensures
        r == *o,
{
    match o {
        Some(s) => Some(s.clone()),
        None => None,
    }
}

impl IndexedTicket {
    /// A field-for-field copy of the ticket.
    pub fn duplicate(&self) -> (r: IndexedTicket)
        ensures
            r == *self,
    {
        IndexedTicket {
            id: self.id,
            type_id: self.type_id.clone(),
            title: clone_opt_string(&self.title),
            state: clone_opt_string(&self.state),
            created_at: self.created_at,
        }
    }
}

/// A directed edge between two tickets.
pub struct EdgeRecord {
    pub from: u128,
    pub to: u128,
    pub kind: String,
}

/// The mathematical value of an [`EdgeRecord`].
pub struct EdgeView {
    pub from: u128,
    pub to: u128,
    pub kind: Seq<char>,
}

impl View for EdgeRecord {
    type V = EdgeView;

    open spec fn view(&self) -> EdgeView {
        EdgeView { from: self.from, to: self.to, kind: self.kind@ }
    }
}

/// Persisted workflow timing facts for one ticket.
#[derive(Clone, Copy)]
pub struct WorkflowFacts {
    pub unresolved_dependency_count: usize,
    pub became_actionable_at: Option<i128>,
    pub last_blocker_progress_at: Option<i128>,
}

/// The facts used when none are recorded for a ticket.
pub open spec fn default_facts() -> WorkflowFacts {
    WorkflowFacts {
        unresolved_dependency_count: 0,
        became_actionable_at: None,
        last_blocker_progress_at: None,
    }
}

pub open spec fn depends_on_kind() -> Seq<char> {
    seq!['d', 'e', 'p', 'e', 'n', 'd', 's', '_', 'o', 'n']
}

pub open spec fn done_seq() -> Seq<char> {
    seq!['d', 'o', 'n', 'e']
}

pub open spec fn cancelled_seq() -> Seq<char> {
    seq!['c', 'a', 'n', 'c', 'e', 'l', 'l', 'e', 'd']
}

pub open spec fn on_hold_seq() -> Seq<char> {
    seq!['o', 'n', '-', 'h', 'o', 'l', 'd']
}

pub open spec fn none_seq() -> Seq<char> {
    seq!['n', 'o', 'n', 'e']
}

/// A state that no longer blocks dependents: `done` or `cancelled`.
pub open spec fn is_done_spec(state: Option<Seq<char>>) -> bool {
    state == Some(done_seq()) || state == Some(cancelled_seq())
}

/// A state whose ticket may be offered as work: anything but done,
/// cancelled and on-hold; a ticket without state counts as a candidate.
pub open spec fn is_candidate_spec(state: Option<Seq<char>>) -> bool {
    match state {
        Some(s) => s != done_seq() && s != cancelled_seq() && s != on_hold_seq(),
        None => true,
    }
}

/// A ticket stops blocking its dependents exactly when its state is `done`
/// or `cancelled`; it may be offered as work exactly when its state is none
/// of `done`, `cancelled` and `on-hold` (a ticket without state may).
pub proof fn lemma_work_states(s: Seq<char>)
    ensures
        is_done_spec(Some(s)) <==> (s == "done"@ || s == "cancelled"@),
        is_candidate_spec(Some(s)) <==> !(s == "done"@ || s == "cancelled"@ || s == "on-hold"@),
        !is_done_spec(None),
        is_candidate_spec(None),
{
    reveal_strlit("done");
    reveal_strlit("cancelled");
    reveal_strlit("on-hold");
    assert("done"@ =~= done_seq());
    assert("cancelled"@ =~= cancelled_seq());
    assert("on-hold"@ =~= on_hold_seq());
}

/// The view of an optional string slice.
pub open spec fn opt_str_view(o: Option<&str>) -> Option<Seq<char>> {
    match o {
        Some(s) => Some(s@),
        None => None,
    }
}

/// Whether a ticket state is terminal (`done` or `cancelled`).
pub fn is_done_state(state: Option<&str>) -> (r: bool)
    ensures
        r == is_done_spec(opt_str_view(state)),
{
    proof {
        reveal_strlit("done");
        reveal_strlit("cancelled");
        assert("done"@ =~= done_seq());
        assert("cancelled"@ =~= cancelled_seq());
    }
    match state {
        Some(s) => str_eq(s, "done") || str_eq(s, "cancelled"),
        None => false,
    }
}

/// Whether a ticket in this state may be proposed as work.
pub fn is_candidate_state(state: Option<&str>) -> (r: bool)
    ensures
        r == is_candidate_spec(opt_str_view(state)),
{
    proof {
        reveal_strlit("done");
        reveal_strlit("cancelled");
        reveal_strlit("on-hold");
        assert("done"@ =~= done_seq());
        assert("cancelled"@ =~= cancelled_seq());
        assert("on-hold"@ =~= on_hold_seq());
    }
    match state {
        Some(s) => !str_eq(s, "done") && !str_eq(s, "cancelled") && !str_eq(s, "on-hold"),
        None => true,
    }
}

/// The ticket with the given id in a sequence; a later entry wins over an
/// earlier one, as in a map built from the sequence.
pub open spec fn find_ticket(ts: Seq<TicketView>, id: u128) -> Option<TicketView>
    decreases ts.len(),
{
    if ts.len() == 0 {
        None
    } else if ts.last().id == id {
        Some(ts.last())
    } else {
        find_ticket(ts.drop_last(), id)
    }
}

/// The value bound to `k` in an association list; a later pair wins.
pub open spec fn assoc<K, V>(s: Seq<(K, V)>, k: K) -> Option<V>
    decreases s.len(),
{
    if s.len() == 0 {
        None
    } else if s.last().0 == k {
        Some(s.last().1)
    } else {
        assoc(s.drop_last(), k)
    }
}

/// No two tickets share an id.
pub open spec fn distinct_ids(ts: Seq<TicketView>) -> bool {
    forall|i: int, j: int| 0 <= i < ts.len() && 0 <= j < ts.len() && i != j ==> ts[i].id != ts[j].id
}

/// The `depends_on` edges whose endpoints are both known tickets, as
/// (dependent, prerequisite) pairs in edge order.
pub open spec fn dep_pairs(edges: Seq<EdgeView>, ts: Seq<TicketView>) -> Seq<(u128, u128)>
    decreases edges.len(),
{
    if edges.len() == 0 {
        Seq::empty()
    } else {
        let e = edges.last();
        let rest = dep_pairs(edges.drop_last(), ts);
        if e.kind == depends_on_kind() && find_ticket(ts, e.from) is Some && find_ticket(ts, e.to) is Some {
            rest.push((e.from, e.to))
        } else {
            rest
        }
    }
}

/// Looking a ticket up by id finds a ticket with that id when there is one,
/// and with distinct ids it finds exactly that ticket.
pub proof fn lemma_find_ticket(s: Seq<TicketView>, id: u128)
    ensures
        find_ticket(s, id) is None <==> (forall|j: int| 0 <= j < s.len() ==> s[j].id != id),
        find_ticket(s, id) is Some ==> find_ticket(s, id)->0.id == id,
        find_ticket(s, id) is Some ==> exists|j: int| 0 <= j < s.len() && s[j] == find_ticket(s, id)->0,
        distinct_ids(s) ==> forall|j: int| 0 <= j < s.len() && s[j].id == id ==> find_ticket(s, id) == Some(s[j]),
    decreases s.len(),
{
    if s.len() > 0 {
        lemma_find_ticket(s.drop_last(), id);
        if s.last().id != id {
            if find_ticket(s, id) is Some {
                let j = choose|j: int| 0 <= j < s.drop_last().len() && s.drop_last()[j] == find_ticket(s, id)->0;
                assert(s[j] == find_ticket(s, id)->0);
            }
            assert forall|j: int| 0 <= j < s.len() - 1 implies s.drop_last()[j] == s[j] by {}
        } else {
            assert(s[s.len() - 1] == s.last());
        }
    }
}

/// Derived ranking and explainability fields for one ticket.
pub struct TicketConvergenceMetrics {
    pub dependency_count: usize,
    pub immediate_dependees: usize,
    pub transitive_reverse_dependents: usize,
    pub affected_reverse_dependent_reach: usize,
    pub max_affected_dependent_state: Option<String>,
    pub max_affected_dependent_state_index: Option<usize>,
    pub dependency_state_gap: usize,
    pub became_actionable_at: Option<i128>,
    pub last_blocker_progress_at: Option<i128>,
}

impl TicketConvergenceMetrics {
    /// The all-zero metrics used for tickets the model does not know.
    pub open spec fn is_default(self) -> bool {
        &&& self.dependency_count == 0
        &&& self.immediate_dependees == 0
        &&& self.transitive_reverse_dependents == 0
        &&& self.affected_reverse_dependent_reach == 0
        &&& self.max_affected_dependent_state is None
        &&& self.max_affected_dependent_state_index is None
        &&& self.dependency_state_gap == 0
        &&& self.became_actionable_at is None
        &&& self.last_blocker_progress_at is None
    }

    /// A field-for-field copy.
    pub fn duplicate(&self) -> (r: Self)
        ensures
            r == *self,
    {
        TicketConvergenceMetrics {
            dependency_count: self.dependency_count,
            immediate_dependees: self.immediate_dependees,
            transitive_reverse_dependents: self.transitive_reverse_dependents,
            affected_reverse_dependent_reach: self.affected_reverse_dependent_reach,
            max_affected_dependent_state: clone_opt_string(&self.max_affected_dependent_state),
            max_affected_dependent_state_index: self.max_affected_dependent_state_index,
            dependency_state_gap: self.dependency_state_gap,
            became_actionable_at: self.became_actionable_at,
            last_blocker_progress_at: self.last_blocker_progress_at,
        }
    }

    /// All-zero metrics.
    pub fn zero() -> (r: Self)
        ensures
            r.is_default(),
    {
        TicketConvergenceMetrics {
            dependency_count: 0,
            immediate_dependees: 0,
            transitive_reverse_dependents: 0,
            affected_reverse_dependent_reach: 0,
            max_affected_dependent_state: None,
            max_affected_dependent_state_index: None,
            dependency_state_gap: 0,
            became_actionable_at: None,
            last_blocker_progress_at: None,
        }
    }
}

/// Evidence that a prerequisite lags behind a more advanced dependent.
pub struct DependencyStateInversion {
    pub dependent_id: u128,
    pub dependent_title: Option<String>,
    pub dependent_state: Option<String>,
    pub prerequisite_id: u128,
    pub prerequisite_title: Option<String>,
    pub prerequisite_state: Option<String>,
    pub dependency_state_gap: usize,
    pub affected_reverse_dependent_reach: usize,
    pub transitive_reverse_dependents: usize,
}

pub struct InversionView {
    pub dependent_id: u128,
    pub dependent_title: Option<Seq<char>>,
    pub dependent_state: Option<Seq<char>>,
    pub prerequisite_id: u128,
    pub prerequisite_title: Option<Seq<char>>,
    pub prerequisite_state: Option<Seq<char>>,
    pub dependency_state_gap: usize,
    pub affected_reverse_dependent_reach: usize,
    pub transitive_reverse_dependents: usize,
}

impl View for DependencyStateInversion {
    type V = InversionView;

    open spec fn view(&self) -> InversionView {
        InversionView {
            dependent_id: self.dependent_id,
            dependent_title: opt_view(self.dependent_title),
            dependent_state: opt_view(self.dependent_state),
            prerequisite_id: self.prerequisite_id,
            prerequisite_title: opt_view(self.prerequisite_title),
            prerequisite_state: opt_view(self.prerequisite_state),
            dependency_state_gap: self.dependency_state_gap,
            affected_reverse_dependent_reach: self.affected_reverse_dependent_reach,
            transitive_reverse_dependents: self.transitive_reverse_dependents,
        }
    }
}

impl DependencyStateInversion {
    /// A field-for-field copy.
    pub fn duplicate(&self) -> (r: Self)
        ensures
            r == *self,
    {
        DependencyStateInversion {
            dependent_id: self.dependent_id,
            dependent_title: clone_opt_string(&self.dependent_title),
            dependent_state: clone_opt_string(&self.dependent_state),
            prerequisite_id: self.prerequisite_id,
            prerequisite_title: clone_opt_string(&self.prerequisite_title),
            prerequisite_state: clone_opt_string(&self.prerequisite_state),
            dependency_state_gap: self.dependency_state_gap,
            affected_reverse_dependent_reach: self.affected_reverse_dependent_reach,
            transitive_reverse_dependents: self.transitive_reverse_dependents,
        }
    }
}

pub open spec fn inversion_triple(v: InversionView) -> (int, int, int) {
    (v.dependency_state_gap as int, v.affected_reverse_dependent_reach as int, v.prerequisite_id as int)
}

pub open spec fn inversions_view(v: Seq<DependencyStateInversion>) -> Seq<InversionView> {
    v.map_values(|x: DependencyStateInversion| x@)
}

/// Nested workflow tree node used by blocker and unlock exploration.
pub struct WorkflowTreeNode {
    pub ticket_id: u128,
    pub title: Option<String>,
    pub state: Option<String>,
    pub priority: String,
    pub children: Vec<WorkflowTreeNode>,
    pub remaining_blocker_count: usize,
    pub unresolved_frontier_leaf_count: usize,
    pub frontier_leaf_ids: Vec<u128>,
    pub blocker_distance: usize,
    pub is_frontier: bool,
    pub dependency_count: usize,
    pub immediate_dependees: usize,
    pub transitive_reverse_dependents: usize,
    pub affected_reverse_dependent_reach: usize,
    pub dependency_state_gap: usize,
}

/// The frontier leaf ids of a list of nodes, concatenated in order.
pub open spec fn frontier_concat(children: Seq<WorkflowTreeNode>) -> Seq<u128>
    decreases children.len(),
{
    if children.len() == 0 {
        Seq::empty()
    } else {
        frontier_concat(children.drop_last()) + children.last().frontier_leaf_ids@
    }
}

/// One more than the smallest blocker distance among the nodes (capped at
/// the largest `usize`); the largest `usize` for an empty list.
pub open spec fn min_next_distance(children: Seq<WorkflowTreeNode>) -> int
    decreases children.len(),
{
    if children.len() == 0 {
        usize::MAX as int
    } else {
        let d = if children.last().blocker_distance == usize::MAX { usize::MAX as int } else { children.last().blocker_distance + 1 };
        let rest = min_next_distance(children.drop_last());
        if d < rest { d } else { rest }
    }
}

/// The elements of `ds` whose ticket is in a candidate state, in order.
pub open spec fn candidate_dependents(m: ModelView, ds: Seq<u128>) -> Seq<u128>
    decreases ds.len(),
{
    if ds.len() == 0 {
        Seq::empty()
    } else {
        let rest = candidate_dependents(m, ds.drop_last());
        if is_candidate_spec(m.state_of(ds.last())) {
            rest.push(ds.last())
        } else {
            rest
        }
    }
}

/// The ticket ids of a node and all of its descendants.
pub open spec fn subtree_ids(n: WorkflowTreeNode) -> Set<u128>
    decreases n, 1int,
{
    forest_ids(n.children@).insert(n.ticket_id)
}

/// The ticket ids of every node of a list of trees.
pub open spec fn forest_ids(s: Seq<WorkflowTreeNode>) -> Set<u128>
    decreases s, 0int,
{
    if s.len() == 0 {
        Set::empty()
    } else {
        forest_ids(s.drop_last()).union(subtree_ids(s.last()))
    }
}

/// Unresolved root-scoped blocker view for one root ticket.
pub struct RootBlockerScope {
    pub tree: WorkflowTreeNode,
    pub remaining_blockers: Vec<u128>,
    pub reachable_dependencies: usize,
    pub blocked_dependencies: usize,
}

/// How many elements of `s` still have unresolved prerequisites.
pub open spec fn count_blocked(m: ModelView, s: Seq<u128>) -> nat
    decreases s.len(),
{
    if s.len() == 0 {
        0
    } else {
        count_blocked(m, s.drop_last()) + if m.unresolved(s.last()).len() > 0 { 1nat } else { 0nat }
    }
}

/// Add the ids of a node and its descendants to a duplicate-free list.
fn collect_tree_node_ids(node: &WorkflowTreeNode, ids: &mut Vec<u128>)
    requires
        old(ids)@.no_duplicates(),
    ensures
        final(ids)@.no_duplicates(),
        final(ids)@.to_set() == old(ids)@.to_set().union(subtree_ids(*node)),
    decreases node,
{
    let ghost start = ids@.to_set();
    push_unique(ids, node.ticket_id);
    let mut i: usize = 0;
    while i < node.children.len()
        invariant
            ids@.no_duplicates(),
            i <= node.children@.len(),
            ids@.to_set() == start.insert(node.ticket_id).union(forest_ids(node.children@.subrange(0, i as int))),
        decreases node.children@.len() - i,
    {
        proof {
            assert(node.children@.subrange(0, i + 1).drop_last() =~= node.children@.subrange(0, i as int));
            assert(node.children@.subrange(0, i + 1).last() == node.children@[i as int]);
        }
        collect_tree_node_ids(&node.children[i], ids);
        proof {
            assert(ids@.to_set() =~= start.insert(node.ticket_id).union(forest_ids(node.children@.subrange(0, i + 1))));
        }
        i = i + 1;
    }
    proof {
        assert(node.children@.subrange(0, node.children@.len() as int) =~= node.children@);
        assert(ids@.to_set() =~= start.union(subtree_ids(*node)));
    }
}

/// Append an id unless it is already listed.
fn push_unique(ids: &mut Vec<u128>, id: u128)
    requires
        old(ids)@.no_duplicates(),
    ensures
        final(ids)@.no_duplicates(),
        final(ids)@.to_set() == old(ids)@.to_set().insert(id),
{
    broadcast use vstd::seq_lib::group_seq_properties;
    if !contains_id(ids, id) {
        let ghost before = ids@;
        ids.push(id);
        proof {
            assert(ids@ == before.push(id));
            assert forall|a: int, b: int| 0 <= a < b < ids@.len() implies ids@[a] != ids@[b] by {
                if b == ids@.len() - 1 {
                    assert(ids@[a] == before[a]);
                    assert(before.contains(before[a]));
                }
            }
            assert(ids@.to_set() =~= before.to_set().insert(id));
        }
    } else {
        assert(ids@.to_set() =~= ids@.to_set().insert(id));
    }
}

/// The view of the model that contracts speak of.
pub struct ModelView {
    pub tickets: Seq<TicketView>,
    pub state_index: Seq<(Seq<char>, usize)>,
    pub priorities: Seq<(u128, Seq<char>)>,
    pub efforts: Seq<(u128, u64)>,
    pub facts: Seq<(u128, WorkflowFacts)>,
    pub deps: Seq<(u128, u128)>,
}

impl ModelView {
    pub open spec fn known(self, id: u128) -> bool {
        find_ticket(self.tickets, id) is Some
    }

    pub open spec fn ticket(self, id: u128) -> TicketView {
        find_ticket(self.tickets, id)->0
    }

    pub open spec fn state_of(self, id: u128) -> Option<Seq<char>> {
        match find_ticket(self.tickets, id) {
            Some(t) => t.state,
            None => None,
        }
    }

    /// The schema position of a state, when the state is listed.
    pub open spec fn state_position(self, state: Option<Seq<char>>) -> Option<usize> {
        match state {
            Some(s) => assoc(self.state_index, s),
            None => None,
        }
    }

    /// The schema position of a state, 0 when unknown.
    pub open spec fn state_rank(self, state: Option<Seq<char>>) -> usize {
        match self.state_position(state) {
            Some(k) => k,
            None => 0,
        }
    }

    pub open spec fn priority(self, id: u128) -> Option<Seq<char>> {
        assoc(self.priorities, id)
    }

    pub open spec fn priority_or_none(self, id: u128) -> Seq<char> {
        match assoc(self.priorities, id) {
            Some(p) => p,
            None => none_seq(),
        }
    }

    pub open spec fn effort(self, id: u128) -> Option<u64> {
        assoc(self.efforts, id)
    }

    /// Unresolved prerequisites of a ticket, in edge order.
    pub open spec fn unresolved(self, id: u128) -> Seq<u128> {
        unresolved_in(self, self.deps, id)
    }

    /// Every ticket that relies on `id`, directly or transitively.
    pub open spec fn dependents_set(self, id: u128) -> Set<u128> {
        reverse_dependent_set(self.deps, id)
    }

    /// The reverse dependents of `id` that are not done yet.
    pub open spec fn affected_set(self, id: u128) -> Set<u128> {
        self.dependents_set(id).filter(|d: u128| !is_done_spec(self.state_of(d)))
    }

    /// The affected reverse dependents whose state has a schema position.
    pub open spec fn positioned_affected(self, id: u128) -> Set<u128> {
        self.affected_set(id).filter(|d: u128| self.state_position(self.state_of(d)) is Some)
    }

    /// The schema position of a ticket's own state.
    pub open spec fn position_of(self, d: u128) -> Option<usize> {
        self.state_position(self.state_of(d))
    }

    /// What the metrics of ticket `id` are.
    pub open spec fn metrics_ok(self, id: u128, x: TicketConvergenceMetrics) -> bool {
        &&& x.dependency_count == count_from(self.deps, id)
        &&& x.immediate_dependees == count_to(self.deps, id)
        &&& x.transitive_reverse_dependents == self.dependents_set(id).len()
        &&& x.affected_reverse_dependent_reach == self.affected_set(id).len()
        &&& (x.max_affected_dependent_state_index is None <==> self.positioned_affected(id).is_empty())
        &&& (x.max_affected_dependent_state_index is None ==> x.max_affected_dependent_state is None)
        &&& (x.max_affected_dependent_state_index matches Some(k) ==> {
            &&& exists|d: u128| #[trigger] self.positioned_affected(id).contains(d)
                && self.position_of(d) == Some(k) && opt_view(x.max_affected_dependent_state) == self.state_of(d)
            &&& forall|d: u128| #[trigger] self.positioned_affected(id).contains(d) ==> self.position_of(d)->0 <= k
        })
        &&& x.dependency_state_gap == (match x.max_affected_dependent_state_index {
            Some(k) => if k >= self.state_rank(self.state_of(id)) { (k - self.state_rank(self.state_of(id))) as usize } else { 0usize },
            None => 0usize,
        })
        &&& x.became_actionable_at == self.facts_of(id).became_actionable_at
        &&& x.last_blocker_progress_at == self.facts_of(id).last_blocker_progress_at
    }

    pub open spec fn facts_of(self, id: u128) -> WorkflowFacts {
        match assoc(self.facts, id) {
            Some(f) => f,
            None => default_facts(),
        }
    }
}


/// Number of dependency pairs whose dependent is `id`.
pub open spec fn count_from(deps: Seq<(u128, u128)>, id: u128) -> nat
    decreases deps.len(),
{
    if deps.len() == 0 {
        0
    } else {
        count_from(deps.drop_last(), id) + if deps.last().0 == id { 1nat } else { 0nat }
    }
}

/// Number of dependency pairs whose prerequisite is `id`.
pub open spec fn count_to(deps: Seq<(u128, u128)>, id: u128) -> nat
    decreases deps.len(),
{
    if deps.len() == 0 {
        0
    } else {
        count_to(deps.drop_last(), id) + if deps.last().1 == id { 1nat } else { 0nat }
    }
}

/// The prerequisites of `id` that are not yet done, in edge order.
pub open spec fn unresolved_in(m: ModelView, deps: Seq<(u128, u128)>, id: u128) -> Seq<u128>
    decreases deps.len(),
{
    if deps.len() == 0 {
        Seq::empty()
    } else {
        let rest = unresolved_in(m, deps.drop_last(), id);
        let d = deps.last();
        if d.0 == id && !is_done_spec(m.state_of(d.1)) {
            rest.push(d.1)
        } else {
            rest
        }
    }
}

/// The direct dependents of `id`, in edge order.
pub open spec fn dependents_in(deps: Seq<(u128, u128)>, id: u128) -> Seq<u128>
    decreases deps.len(),
{
    if deps.len() == 0 {
        Seq::empty()
    } else {
        let rest = dependents_in(deps.drop_last(), id);
        if deps.last().1 == id {
            rest.push(deps.last().0)
        } else {
            rest
        }
    }
}

/// The elements of `s` that do not occur in `excluded`, in order.
pub open spec fn without(s: Seq<u128>, excluded: Seq<u128>) -> Seq<u128>
    decreases s.len(),
{
    if s.len() == 0 {
        Seq::empty()
    } else {
        let rest = without(s.drop_last(), excluded);
        if excluded.contains(s.last()) {
            rest
        } else {
            rest.push(s.last())
        }
    }
}

/// A ticket has no more prerequisites or dependents than there are
/// dependency pairs.
pub proof fn lemma_count_bounds(deps: Seq<(u128, u128)>, id: u128)
    ensures
        count_from(deps, id) <= deps.len(),
        count_to(deps, id) <= deps.len(),
    decreases deps.len(),
{
    if deps.len() > 0 {
        lemma_count_bounds(deps.drop_last(), id);
    }
}

/// Whether an id occurs in a vector.
pub fn contains_id(v: &Vec<u128>, id: u128) -> (r: bool)
    ensures
        r == v@.contains(id),
{
    let mut i: usize = 0;
    while i < v.len()
        invariant
            i <= v@.len(),
            forall|j: int| 0 <= j < i ==> v@[j] != id,
        decreases v@.len() - i,
    {
        if v[i] == id {
            assert(v@[i as int] == id);
            return true;
        }
        i = i + 1;
    }
    false
}

/// Removing nothing leaves a sequence unchanged.
pub proof fn lemma_without_empty(s: Seq<u128>)
    ensures
        without(s, Seq::empty()) == s,
    decreases s.len(),
{
    if s.len() > 0 {
        lemma_without_empty(s.drop_last());
        assert(s.drop_last().push(s.last()) =~= s);
    }
}

/// `b` depends directly on `a`.
pub open spec fn is_dep(deps: Seq<(u128, u128)>, b: u128, a: u128) -> bool {
    exists|i: int| 0 <= i < deps.len() && deps[i] == (b, a)
}

/// A chain in which each element depends directly on the one before it.
pub open spec fn is_dependent_chain(deps: Seq<(u128, u128)>, p: Seq<u128>) -> bool {
    &&& p.len() >= 2
    &&& forall|k: int| 0 <= k < p.len() - 1 ==> #[trigger] is_dep(deps, p[k + 1], p[k])
}

/// `d` relies on `root` directly or transitively.
pub open spec fn relies_on(deps: Seq<(u128, u128)>, d: u128, root: u128) -> bool {
    exists|p: Seq<u128>| #[trigger] is_dependent_chain(deps, p) && p[0] == root && p.last() == d
}

/// The transitive reverse dependents of `root` (never `root` itself).
pub open spec fn reverse_dependent_set(deps: Seq<(u128, u128)>, root: u128) -> Set<u128> {
    Set::new(|d: u128| d != root && relies_on(deps, d, root))
}

/// The direct dependents of a ticket are exactly the tickets that depend
/// on it.
pub proof fn lemma_dependents_in(deps: Seq<(u128, u128)>, x: u128)
    ensures
        forall|f: u128| dependents_in(deps, x).contains(f) <==> is_dep(deps, f, x),
    decreases deps.len(),
{
    broadcast use vstd::seq_lib::group_seq_properties;
    if deps.len() > 0 {
        let pre = deps.drop_last();
        let l = deps.last();
        let rest = dependents_in(pre, x);
        lemma_dependents_in(pre, x);
        assert forall|f: u128| dependents_in(deps, x).contains(f) <==> is_dep(deps, f, x) by {
            assert(is_dep(deps, f, x) <==> (is_dep(pre, f, x) || l == (f, x))) by {
                if is_dep(deps, f, x) {
                    let i = choose|i: int| 0 <= i < deps.len() && deps[i] == (f, x);
                    if i < pre.len() {
                        assert(pre[i] == deps[i]);
                    }
                }
                if is_dep(pre, f, x) {
                    let i = choose|i: int| 0 <= i < pre.len() && pre[i] == (f, x);
                    assert(deps[i] == pre[i]);
                }
                if l == (f, x) {
                    assert(deps[deps.len() - 1] == l);
                }
            }
            if l.1 == x {
                assert(dependents_in(deps, x) == rest.push(l.0));
                assert(rest.push(l.0).contains(f) <==> (rest.contains(f) || f == l.0));
            }
        }
    }
}

/// A direct dependent of the root, or of a ticket that relies on the root,
/// relies on the root too.
pub proof fn lemma_extend_chain(deps: Seq<(u128, u128)>, root: u128, x: u128, f: u128)
    requires
        x == root || relies_on(deps, x, root),
        is_dep(deps, f, x),
    ensures
        relies_on(deps, f, root),
{
    if x == root {
        let p = seq![root, f];
        assert(is_dep(deps, p[1], p[0]));
        assert(is_dependent_chain(deps, p));
    } else {
        let p = choose|p: Seq<u128>| #[trigger] is_dependent_chain(deps, p) && p[0] == root && p.last() == x;
        let q = p.push(f);
        assert forall|k: int| 0 <= k < q.len() - 1 implies #[trigger] is_dep(deps, q[k + 1], q[k]) by {
            if k < p.len() - 1 {
                assert(q[k + 1] == p[k + 1] && q[k] == p[k]);
                assert(is_dep(deps, p[k + 1], p[k]));
            } else {
                assert(q[k] == x && q[k + 1] == f);
            }
        }
        assert(is_dependent_chain(deps, q));
        assert(q[0] == root && q.last() == f);
    }
}

/// Every element of a chain from `root` stays inside a set that holds
/// `root` and is closed under direct dependents.
pub proof fn lemma_closed_chain(deps: Seq<(u128, u128)>, root: u128, inside: Set<u128>, p: Seq<u128>)
    requires
        inside.contains(root),
        forall|x: u128, f: u128| inside.contains(x) && #[trigger] is_dep(deps, f, x) ==> inside.contains(f),
        is_dependent_chain(deps, p),
        p[0] == root,
    ensures
        forall|k: int| 0 <= k < p.len() ==> inside.contains(#[trigger] p[k]),
{
    assert forall|k: int| 0 <= k < p.len() implies inside.contains(#[trigger] p[k]) by {
        lemma_closed_chain_at(deps, root, inside, p, k);
    }
}

proof fn lemma_closed_chain_at(deps: Seq<(u128, u128)>, root: u128, inside: Set<u128>, p: Seq<u128>, k: int)
    requires
        inside.contains(root),
        forall|x: u128, f: u128| inside.contains(x) && #[trigger] is_dep(deps, f, x) ==> inside.contains(f),
        is_dependent_chain(deps, p),
        p[0] == root,
        0 <= k < p.len(),
    ensures
        inside.contains(p[k]),
    decreases k,
{
    if k > 0 {
        lemma_closed_chain_at(deps, root, inside, p, k - 1);
        assert(is_dep(deps, p[(k - 1) + 1], p[k - 1]));
    }
}

pub open spec fn critical_seq() -> Seq<char> { seq!['c', 'r', 'i', 't', 'i', 'c', 'a', 'l'] }
pub open spec fn high_seq() -> Seq<char> { seq!['h', 'i', 'g', 'h'] }
pub open spec fn medium_seq() -> Seq<char> { seq!['m', 'e', 'd', 'i', 'u', 'm'] }
pub open spec fn low_seq() -> Seq<char> { seq!['l', 'o', 'w'] }
pub open spec fn backlog_seq() -> Seq<char> { seq!['b', 'a', 'c', 'k', 'l', 'o', 'g'] }

/// Rank of a priority label: critical 0, high 1, medium 2, low 3,
/// backlog 5, anything else 4.
pub open spec fn priority_weight_spec(p: Seq<char>) -> u8 {
    if p == critical_seq() {
        0
    } else if p == high_seq() {
        1
    } else if p == medium_seq() {
        2
    } else if p == low_seq() {
        3
    } else if p == backlog_seq() {
        5
    } else {
        4
    }
}

/// Rank of a priority label (lower ranks first).
pub fn priority_weight(priority: &str) -> (r: u8)
    ensures
        r == priority_weight_spec(priority@),
{
    proof {
        reveal_strlit("critical");
        reveal_strlit("high");
        reveal_strlit("medium");
        reveal_strlit("low");
        reveal_strlit("backlog");
        assert("critical"@ =~= critical_seq());
        assert("high"@ =~= high_seq());
        assert("medium"@ =~= medium_seq());
        assert("low"@ =~= low_seq());
        assert("backlog"@ =~= backlog_seq());
    }
    if str_eq(priority, "critical") {
        0
    } else if str_eq(priority, "high") {
        1
    } else if str_eq(priority, "medium") {
        2
    } else if str_eq(priority, "low") {
        3
    } else if str_eq(priority, "backlog") {
        5
    } else {
        4
    }
}

/// Priority labels rank `critical` first, then `high`, `medium`, `low`,
/// any other label, and `backlog` last: the weights are 0 to 5 in that
/// order.
pub proof fn lemma_priority_ranks(other: Seq<char>)
    requires
        other != "critical"@,
        other != "high"@,
        other != "medium"@,
        other != "low"@,
        other != "backlog"@,
    ensures
        priority_weight_spec("critical"@) == 0,
        priority_weight_spec("high"@) == 1,
        priority_weight_spec("medium"@) == 2,
        priority_weight_spec("low"@) == 3,
        priority_weight_spec(other) == 4,
        priority_weight_spec("backlog"@) == 5,
        priority_weight_spec("critical"@) < priority_weight_spec("high"@),
        priority_weight_spec("high"@) < priority_weight_spec("medium"@),
        priority_weight_spec("medium"@) < priority_weight_spec("low"@),
        priority_weight_spec("low"@) < priority_weight_spec(other),
        priority_weight_spec(other) < priority_weight_spec("backlog"@),
{
    reveal_strlit("critical");
    reveal_strlit("high");
    reveal_strlit("medium");
    reveal_strlit("low");
    reveal_strlit("backlog");
    assert("critical"@ =~= critical_seq());
    assert("high"@ =~= high_seq());
    assert("medium"@ =~= medium_seq());
    assert("low"@ =~= low_seq());
    assert("backlog"@ =~= backlog_seq());
}

/// Between two known candidates that tie on affected state, gap, reach,
/// effort and actionability, the one with the smaller priority weight (the
/// higher priority) ranks first.
pub proof fn lemma_higher_priority_ranks_first(a: CandidateKey, b: CandidateKey)
    requires
        a.known && b.known,
        a.max_index == b.max_index,
        a.gap == b.gap,
        a.reach == b.reach,
        a.effort == b.effort,
        a.actionable_at == b.actionable_at,
        a.priority_weight < b.priority_weight,
    ensures
        candidate_order(a, b) < 0,
        candidate_order(b, a) > 0,
{
    order::lemma_candidate_order(a, b);
}

/// How the ranking decides between two candidates: a known ticket before an
/// unknown one; between known ones, the first criterion on which they
/// differ decides: the more advanced affected dependent state, the wider
/// state gap, the wider affected reach, the lower effort, the later
/// actionability (any before none), the higher priority (smaller weight),
/// the more advanced own state, more transitive then more direct
/// dependents, the newer creation.
pub proof fn lemma_candidate_ranking_criteria(a: CandidateKey, b: CandidateKey)
    ensures
        a.known && !b.known ==> candidate_order(a, b) < 0,
        a.known && b.known && a.max_index > b.max_index ==> candidate_order(a, b) < 0,
        a.known && b.known && a.max_index == b.max_index && a.gap > b.gap ==> candidate_order(a, b) < 0,
        a.known && b.known && a.max_index == b.max_index && a.gap == b.gap && a.reach > b.reach
            ==> candidate_order(a, b) < 0,
        a.known && b.known && a.max_index == b.max_index && a.gap == b.gap && a.reach == b.reach && a.effort
            < b.effort ==> candidate_order(a, b) < 0,
        a.known && b.known && a.max_index == b.max_index && a.gap == b.gap && a.reach == b.reach && a.effort
            == b.effort && a.actionable_at is Some && b.actionable_at is None ==> candidate_order(a, b) < 0,
        a.known && b.known && a.max_index == b.max_index && a.gap == b.gap && a.reach == b.reach && a.effort
            == b.effort && a.actionable_at is Some && b.actionable_at is Some && a.actionable_at->0
            > b.actionable_at->0 ==> candidate_order(a, b) < 0,
        a.known && b.known && a.max_index == b.max_index && a.gap == b.gap && a.reach == b.reach && a.effort
            == b.effort && a.actionable_at == b.actionable_at && a.priority_weight < b.priority_weight
            ==> candidate_order(a, b) < 0,
        a.known && b.known && a.max_index == b.max_index && a.gap == b.gap && a.reach == b.reach && a.effort
            == b.effort && a.actionable_at == b.actionable_at && a.priority_weight == b.priority_weight
            && a.state_rank > b.state_rank ==> candidate_order(a, b) < 0,
        a.known && b.known && a.max_index == b.max_index && a.gap == b.gap && a.reach == b.reach && a.effort
            == b.effort && a.actionable_at == b.actionable_at && a.priority_weight == b.priority_weight
            && a.state_rank == b.state_rank && a.transitive > b.transitive ==> candidate_order(a, b) < 0,
        a.known && b.known && a.max_index == b.max_index && a.gap == b.gap && a.reach == b.reach && a.effort
            == b.effort && a.actionable_at == b.actionable_at && a.priority_weight == b.priority_weight
            && a.state_rank == b.state_rank && a.transitive == b.transitive && a.dependees > b.dependees
            ==> candidate_order(a, b) < 0,
        a.known && b.known && a.max_index == b.max_index && a.gap == b.gap && a.reach == b.reach && a.effort
            == b.effort && a.actionable_at == b.actionable_at && a.priority_weight == b.priority_weight
            && a.state_rank == b.state_rank && a.transitive == b.transitive && a.dependees == b.dependees
            && a.created_at > b.created_at ==> candidate_order(a, b) < 0,
{
}

/// Effort ordering key: unknown effort sorts after every known one.
pub open spec fn effort_key_spec(effort: Option<u64>) -> u64 {
    match effort {
        Some(e) => e,
        None => u64::MAX,
    }
}

/// Effort ordering key: unknown effort sorts after every known one.
pub fn effort_sort_key(effort: Option<u64>) -> (r: u64)
    ensures
        r == effort_key_spec(effort),
{
    match effort {
        Some(e) => e,
        None => u64::MAX,
    }
}

/// A ticket title, or the empty text when it has none.
pub open spec fn title_or_empty(t: Option<Seq<char>>) -> Seq<char> {
    match t {
        Some(s) => s,
        None => Seq::empty(),
    }
}

/// The ids of the tickets that lie in `scope` (all when absent) and are
/// in a candidate state, in model order.
pub open spec fn eligible_in(ts: Seq<TicketView>, scope: Option<Seq<u128>>) -> Seq<u128>
    decreases ts.len(),
{
    if ts.len() == 0 {
        Seq::empty()
    } else {
        let rest = eligible_in(ts.drop_last(), scope);
        let t = ts.last();
        let in_scope = match scope {
            Some(ids) => ids.contains(t.id),
            None => true,
        };
        if in_scope && is_candidate_spec(t.state) {
            rest.push(t.id)
        } else {
            rest
        }
    }
}

/// The elements of `s` whose unresolved prerequisites, minus `satisfied`,
/// are all gone.
pub open spec fn actionable_in(m: ModelView, s: Seq<u128>, satisfied: Seq<u128>) -> Seq<u128>
    decreases s.len(),
{
    if s.len() == 0 {
        Seq::empty()
    } else {
        let rest = actionable_in(m, s.drop_last(), satisfied);
        if without(m.unresolved(s.last()), satisfied).len() == 0 {
            rest.push(s.last())
        } else {
            rest
        }
    }
}

/// The ids of the tickets whose title starts with `prefix`, in order.
pub open spec fn titled_with(ts: Seq<TicketView>, prefix: Seq<char>) -> Seq<u128>
    decreases ts.len(),
{
    if ts.len() == 0 {
        Seq::empty()
    } else {
        let rest = titled_with(ts.drop_last(), prefix);
        if crate::text::is_prefix(prefix, title_or_empty(ts.last().title)) {
            rest.push(ts.last().id)
        } else {
            rest
        }
    }
}

proof fn lemma_sorted_key(model: &WorkflowModel, sv: Seq<CandidateKey>, kin: Seq<CandidateKey>, orig: Seq<u128>, a: int)
    requires
        sv.to_multiset() == kin.to_multiset(),
        kin.len() == orig.len(),
        forall|q: int| 0 <= q < kin.len() ==> kin[q] == model.candidate_key(orig[q]),
        0 <= a < sv.len(),
    ensures
        sv[a] == model.candidate_key(sv[a].id as u128),
{
    sv.to_multiset_ensures();
    kin.to_multiset_ensures();
    assert(sv.contains(sv[a]));
    assert(sv.to_multiset().count(sv[a]) > 0);
    assert(kin.to_multiset().count(sv[a]) > 0);
    assert(kin.contains(sv[a]));
    let q = choose|q: int| 0 <= q < kin.len() && kin[q] == sv[a];
    assert(kin[q] == model.candidate_key(orig[q]));
}

/// The ids of the tickets whose title starts with `filter`; `None` when
/// no filter is given.
pub fn filter_scope(tickets: &Vec<IndexedTicket>, filter: Option<&str>) -> (r: Option<Vec<u128>>)
    ensures
        filter is None <==> r is None,
        filter matches Some(f) ==> r->0@ == titled_with(tickets_view(tickets@), f@),
{
    match filter {
        None => None,
        Some(prefix) => {
            let ghost tv = tickets_view(tickets@);
            let mut out: Vec<u128> = Vec::new();
            let mut i: usize = 0;
            while i < tickets.len()
                invariant
                    tv == tickets_view(tickets@),
                    i <= tv.len(),
                    out@ == titled_with(tv.subrange(0, i as int), prefix@),
                decreases tv.len() - i,
            {
                proof {
                    assert(tv.subrange(0, i + 1).drop_last() =~= tv.subrange(0, i as int));
                    assert(tv.subrange(0, i + 1).last() == tickets@[i as int]@);
                }
                let t = &tickets[i];
                let title: &str = match &t.title {
                    Some(s) => s.as_str(),
                    None => {
                        proof { reveal_strlit(""); assert(""@ =~= Seq::<char>::empty()); }
                        ""
                    },
                };
                if crate::text::starts_with(title, prefix) {
                    out.push(t.id);
                }
                i = i + 1;
            }
            assert(tv.subrange(0, tv.len() as int) =~= tv);
            Some(out)
        },
    }
}

proof fn lemma_key_in(sorted: Seq<(usize, usize, u128, usize)>, kin: Seq<(usize, usize, u128, usize)>,
    raw: Seq<DependencyStateInversion>, a: int)
    requires
        sorted.to_multiset() == kin.to_multiset(),
        kin.len() == raw.len(),
        forall|q: int| 0 <= q < kin.len() ==> #[trigger] kin[q] == (raw[q].dependency_state_gap,
            raw[q].affected_reverse_dependent_reach, raw[q].prerequisite_id, q as usize),
        0 <= a < sorted.len(),
        raw.len() <= usize::MAX,
    ensures
        sorted[a].3 < raw.len(),
        sorted[a] == kin[sorted[a].3 as int],
{
    sorted.to_multiset_ensures();
    kin.to_multiset_ensures();
    assert(sorted.contains(sorted[a]));
    assert(sorted.to_multiset().count(sorted[a]) > 0);
    assert(kin.to_multiset().count(sorted[a]) > 0);
    assert(kin.contains(sorted[a]));
    let q = choose|q: int| 0 <= q < kin.len() && kin[q] == sorted[a];
    assert(kin[q].3 == q as usize);
}

proof fn lemma_path_bound(ts: Seq<TicketView>, path: Seq<u128>)
    requires
        path.no_duplicates(),
        forall|k: int| 0 <= k < path.len() ==> find_ticket(ts, #[trigger] path[k]) is Some,
    ensures
        path.len() <= ts.len(),
{
    let ids = ts.map_values(|t: TicketView| t.id);
    assert forall|x: u128| path.to_set().contains(x) implies ids.to_set().contains(x) by {
        let k = choose|k: int| 0 <= k < path.len() && path[k] == x;
        lemma_find_ticket(ts, x);
        let j = choose|j: int| 0 <= j < ts.len() && ts[j] == find_ticket(ts, x)->0;
        assert(ids[j] == x);
    }
    path.unique_seq_to_set();
    ids.lemma_cardinality_of_set();
    vstd::seq_lib::seq_to_set_is_finite(ids);
    vstd::set_lib::lemma_len_subset(path.to_set(), ids.to_set());
}

/// A property of every element survives a permutation.
proof fn lemma_perm_members(a: Seq<WorkflowTreeNode>, b: Seq<WorkflowTreeNode>, i: int)
    requires
        a.to_multiset() == b.to_multiset(),
        0 <= i < a.len(),
    ensures
        exists|j: int| 0 <= j < b.len() && b[j] == a[i],
{
    a.to_multiset_ensures();
    b.to_multiset_ensures();
    assert(a.contains(a[i]));
    assert(a.to_multiset().count(a[i]) > 0);
    assert(b.to_multiset().count(a[i]) > 0);
    assert(b.contains(a[i]));
}

pub open spec fn tickets_view(v: Seq<IndexedTicket>) -> Seq<TicketView> {
    v.map_values(|t: IndexedTicket| t@)
}

pub open spec fn edges_view(v: Seq<EdgeRecord>) -> Seq<EdgeView> {
    v.map_values(|e: EdgeRecord| e@)
}

pub open spec fn state_index_view(v: Seq<(String, usize)>) -> Seq<(Seq<char>, usize)> {
    v.map_values(|p: (String, usize)| (p.0@, p.1))
}

pub open spec fn priorities_view(v: Seq<(u128, String)>) -> Seq<(u128, Seq<char>)> {
    v.map_values(|p: (u128, String)| (p.0, p.1@))
}

/// The canonical dependency-convergence model over a set of tickets.
pub struct WorkflowModel {
    tickets: Vec<IndexedTicket>,
    state_index: Vec<(String, usize)>,
    priorities: Vec<(u128, String)>,
    efforts: Vec<(u128, u64)>,
    facts: Vec<(u128, WorkflowFacts)>,
    deps: Vec<(u128, u128)>,
    metrics: Vec<TicketConvergenceMetrics>,
}

impl View for WorkflowModel {
    type V = ModelView;

    closed spec fn view(&self) -> ModelView {
        ModelView {
            tickets: tickets_view(self.tickets@),
            state_index: state_index_view(self.state_index@),
            priorities: priorities_view(self.priorities@),
            efforts: self.efforts@,
            facts: self.facts@,
            deps: self.deps@,
        }
    }
}

impl WorkflowModel {
    /// Internal consistency of the model.
    pub closed spec fn wf(&self) -> bool {
        &&& self.wf_base()
        &&& self.metrics@.len() == self.tickets@.len()
        &&& forall|i: int| 0 <= i < self.tickets@.len() ==> self@.metrics_ok(#[trigger] self.tickets@[i].id, self.metrics@[i])
    }

    /// The tickets the model was built from, in their original order.
    pub fn tickets(&self) -> (r: &Vec<IndexedTicket>)
        ensures
            tickets_view(r@) == self@.tickets,
    {
        &self.tickets
    }

    /// A consistent model is in particular well-formed at its base.
    pub proof fn lemma_wf_base(&self)
        requires
            self.wf(),
        ensures
            self.wf_base(),
    {
    }

    /// The stored metrics of a known ticket.
    pub closed spec fn metrics_of(&self, id: u128) -> TicketConvergenceMetrics {
        let i = choose|i: int| 0 <= i < self.tickets@.len() && self.tickets@[i].id == id;
        self.metrics@[i]
    }

    /// The ranking key of a candidate ticket.
    pub open spec fn candidate_key(&self, id: u128) -> CandidateKey {
        let m = self@;
        let x = self.metrics_of(id);
        if !m.known(id) {
            CandidateKey {
                known: false,
                max_index: 0,
                gap: 0,
                reach: 0,
                effort: 0,
                actionable_at: None,
                priority_weight: 0,
                state_rank: 0,
                transitive: 0,
                dependees: 0,
                created_at: 0,
                title: Seq::empty(),
                id: id as int,
            }
        } else {
        CandidateKey {
            known: true,
            max_index: match x.max_affected_dependent_state_index {
                Some(k) => k as int,
                None => 0,
            },
            gap: x.dependency_state_gap as int,
            reach: x.affected_reverse_dependent_reach as int,
            effort: effort_key_spec(m.effort(id)) as int,
            actionable_at: x.became_actionable_at,
            priority_weight: priority_weight_spec(m.priority_or_none(id)) as int,
            state_rank: m.state_rank(m.state_of(id)) as int,
            transitive: x.transitive_reverse_dependents as int,
            dependees: x.immediate_dependees as int,
            created_at: m.ticket(id).created_at as int,
            title: title_or_empty(m.ticket(id).title),
            id: id as int,
        }
        }
    }

    /// The inversions contributed by the dependency pairs of `deps` whose
    /// dependent is `id`: both tickets open, and the dependent's state ranks
    /// strictly after the prerequisite's.
    pub open spec fn raw_inversions(&self, deps: Seq<(u128, u128)>, id: u128) -> Seq<InversionView>
        decreases deps.len(),
    {
        if deps.len() == 0 {
            Seq::empty()
        } else {
            let rest = self.raw_inversions(deps.drop_last(), id);
            let d = deps.last();
            let m = self@;
            let dep_rank = m.state_rank(m.state_of(d.0));
            let pre_rank = m.state_rank(m.state_of(d.1));
            if d.0 == id && !is_done_spec(m.state_of(d.0)) && !is_done_spec(m.state_of(d.1)) && dep_rank > pre_rank {
                rest.push(InversionView {
                    dependent_id: d.0,
                    dependent_title: m.ticket(d.0).title,
                    dependent_state: m.state_of(d.0),
                    prerequisite_id: d.1,
                    prerequisite_title: m.ticket(d.1).title,
                    prerequisite_state: m.state_of(d.1),
                    dependency_state_gap: (dep_rank - pre_rank) as usize,
                    affected_reverse_dependent_reach: self.metrics_of(d.1).affected_reverse_dependent_reach,
                    transitive_reverse_dependents: self.metrics_of(d.1).transitive_reverse_dependents,
                })
            } else {
                rest
            }
        }
    }

    /// The sibling-ordering key of a tree node.
    pub open spec fn tree_key(&self, n: WorkflowTreeNode) -> TreeKey {
        TreeKey {
            frontier: n.unresolved_frontier_leaf_count as int,
            distance: n.blocker_distance as int,
            effort: effort_key_spec(self@.effort(n.ticket_id)) as int,
            gap: n.dependency_state_gap as int,
            reach: n.affected_reverse_dependent_reach as int,
            transitive: n.transitive_reverse_dependents as int,
            priority_weight: priority_weight_spec(n.priority@) as int,
            title: title_or_empty(opt_view(n.title)),
            id: n.ticket_id as int,
        }
    }

    /// Siblings in tree order.
    pub open spec fn nodes_sorted(&self, s: Seq<WorkflowTreeNode>) -> bool {
        forall|i: int, j: int| 0 <= i < j < s.len() ==> tree_key_order(self.tree_key(s[i]), self.tree_key(s[j])) <= 0
    }

    /// The fields of a node that follow from its ticket, its metrics and
    /// its (already sorted) children.
    pub open spec fn node_summary_ok(&self, n: WorkflowTreeNode, fallback: usize) -> bool {
        let m = self@;
        let id = n.ticket_id;
        let x = self.metrics_of(id);
        &&& opt_view(n.title) == m.ticket(id).title
        &&& opt_view(n.state) == m.ticket(id).state
        &&& n.priority@ == m.priority_or_none(id)
        &&& n.frontier_leaf_ids@ == (if n.is_frontier || n.children@.len() == 0 { seq![id] } else { frontier_concat(n.children@) })
        &&& n.unresolved_frontier_leaf_count == n.frontier_leaf_ids@.len()
        &&& n.blocker_distance as int == (if n.is_frontier { 0 } else if n.children@.len() == 0 { fallback as int } else { min_next_distance(n.children@) })
        &&& n.dependency_count == x.dependency_count
        &&& n.immediate_dependees == x.immediate_dependees
        &&& n.transitive_reverse_dependents == x.transitive_reverse_dependents
        &&& n.affected_reverse_dependent_reach == x.affected_reverse_dependent_reach
        &&& n.dependency_state_gap == x.dependency_state_gap
    }

    /// A node for a ticket already on the current path: a leaf that stops
    /// the walk around a dependency cycle.
    pub open spec fn cycle_leaf_ok(&self, n: WorkflowTreeNode) -> bool {
        &&& n.children@.len() == 0
        &&& n.remaining_blocker_count == 0
        &&& !n.is_frontier
        &&& self.node_summary_ok(n, 1)
    }

    /// `n` is the upstream blocker tree of its ticket, reached along `path`:
    /// its children are the trees of its unresolved prerequisites, in tree
    /// order, and it is a frontier exactly when it has no unresolved
    /// prerequisite.
    pub open spec fn blocker_node_ok(&self, n: WorkflowTreeNode, path: Seq<u128>) -> bool
        decreases n,
    {
        let m = self@;
        let id = n.ticket_id;
        let us = m.unresolved(id);
        &&& m.known(id)
        &&& if path.contains(id) {
            self.cycle_leaf_ok(n)
        } else {
            &&& n.remaining_blocker_count == us.len()
            &&& n.is_frontier == (us.len() == 0)
            &&& n.children@.map_values(|c: WorkflowTreeNode| c.ticket_id).to_multiset() == us.to_multiset()
            &&& self.nodes_sorted(n.children@)
            &&& forall|i: int| 0 <= i < n.children@.len() ==> self.blocker_node_ok(#[trigger] n.children@[i], path.push(id))
            &&& self.node_summary_ok(n, if us.len() == 0 { 1 } else { us.len() as usize })
        }
    }

    /// `n` is the downstream unlock tree of its ticket, reached along
    /// `path`, with `satisfied` counted as done: its children are the trees
    /// of its candidate-state direct dependents, in tree order; it is a
    /// frontier when frontiers are allowed, nothing outside `satisfied`
    /// still blocks it and its own state is a candidate state.
    pub open spec fn unlock_node_ok(&self, n: WorkflowTreeNode, satisfied: Seq<u128>, allow_frontier: bool, path: Seq<u128>) -> bool
        decreases n,
    {
        let m = self@;
        let id = n.ticket_id;
        let kids = candidate_dependents(m, dependents_in(m.deps, id));
        let rem = without(m.unresolved(id), satisfied).len();
        &&& m.known(id)
        &&& if path.contains(id) {
            self.cycle_leaf_ok(n)
        } else {
            &&& n.remaining_blocker_count == rem
            &&& n.is_frontier == (allow_frontier && rem == 0 && is_candidate_spec(m.state_of(id)))
            &&& n.children@.map_values(|c: WorkflowTreeNode| c.ticket_id).to_multiset() == kids.to_multiset()
            &&& self.nodes_sorted(n.children@)
            &&& forall|i: int| 0 <= i < n.children@.len() ==> self.unlock_node_ok(#[trigger] n.children@[i], satisfied, true, path.push(id))
            &&& self.node_summary_ok(n, if rem == 0 { 1 } else { rem as usize })
        }
    }

    /// Consistency of the tickets and dependency pairs.
    pub closed spec fn wf_base(&self) -> bool {
        &&& distinct_ids(self@.tickets)
        &&& forall|i: int| 0 <= i < self.deps@.len() ==> self@.known(#[trigger] self.deps@[i].0) && self@.known(self.deps@[i].1)
    }

    /// Build the model from indexed tickets, edges, the schema state order,
    /// and the per-ticket priority, effort and workflow-fact tables.
    /// A later ticket with an id already seen replaces the earlier one.
    pub fn build_from_parts(
        tickets: Vec<IndexedTicket>,
        all_edges: Vec<EdgeRecord>,
        state_index: Vec<(String, usize)>,
        priorities: Vec<(u128, String)>,
        efforts: Vec<(u128, u64)>,
        workflow_facts: Vec<(u128, WorkflowFacts)>,
    ) -> (r: Self)
        ensures
            r.wf(),
            forall|id: u128| find_ticket(r@.tickets, id) == find_ticket(tickets_view(tickets@), id),
            r@.deps == dep_pairs(edges_view(all_edges@), tickets_view(tickets@)),
            r@.state_index == state_index_view(state_index@),
            r@.priorities == priorities_view(priorities@),
            r@.efforts == efforts@,
            r@.facts == workflow_facts@,
    {
        let ghost tin = tickets_view(tickets@);
        let mut out: Vec<IndexedTicket> = Vec::new();
        let mut i: usize = 0;
        while i < tickets.len()
            invariant
                tin == tickets_view(tickets@),
                i <= tickets@.len(),
                distinct_ids(tickets_view(out@)),
                forall|id: u128| find_ticket(tickets_view(out@), id) == find_ticket(tin.subrange(0, i as int), id),
            decreases tickets@.len() - i,
        {
            let t = tickets[i].duplicate();
            let ghost old_out = tickets_view(out@);
            let found = Self::index_in(&out, t.id);
            proof { lemma_find_ticket(old_out, t.id); }
            proof {
                assert(tin.subrange(0, i + 1).drop_last() =~= tin.subrange(0, i as int));
                assert(tin.subrange(0, i + 1).last() == t@);
            }
            match found {
                Some(j) => {
                    out.set(j, t);
                    proof {
                        let nv = tickets_view(out@);
                        assert(nv =~= old_out.update(j as int, t@));
                        assert forall|a: int, b: int| 0 <= a < nv.len() && 0 <= b < nv.len() && a != b implies nv[a].id != nv[b].id by {
                            assert(old_out[j as int].id == t.id);
                        }
                        assert forall|id: u128| find_ticket(nv, id) == find_ticket(tin.subrange(0, i + 1), id) by {
                            lemma_find_ticket(nv, id);
                            lemma_find_ticket(old_out, id);
                            assert(find_ticket(old_out, id) == find_ticket(tin.subrange(0, i as int), id));
                            if id == t.id {
                                assert(nv[j as int] == t@);
                            } else {
                                if find_ticket(old_out, id) is Some {
                                    let k = choose|k: int| 0 <= k < old_out.len() && old_out[k] == find_ticket(old_out, id)->0;
                                    assert(nv[k] == old_out[k]);
                                } else {
                                    assert forall|k: int| 0 <= k < nv.len() implies nv[k].id != id by {
                                        if k != j {
                                            assert(nv[k] == old_out[k]);
                                        }
                                    }
                                }
                            }
                        }
                    }
                },
                None => {
                    out.push(t);
                    proof {
                        let nv = tickets_view(out@);
                        assert(nv =~= old_out.push(t@));
                        assert(nv.drop_last() =~= old_out);
                        assert forall|a: int, b: int| 0 <= a < nv.len() && 0 <= b < nv.len() && a != b implies nv[a].id != nv[b].id by {
                            if a < old_out.len() && b < old_out.len() {
                            } else if a < old_out.len() {
                                assert(old_out[a].id != t.id);
                            } else {
                                assert(old_out[b].id != t.id);
                            }
                        }
                        assert forall|id: u128| find_ticket(nv, id) == find_ticket(tin.subrange(0, i + 1), id) by {
                            assert(nv.last() == t@);
                            assert(find_ticket(old_out, id) == find_ticket(tin.subrange(0, i as int), id));
                        }
                    }
                },
            }
            i = i + 1;
        }
        proof {
            assert(tin.subrange(0, tickets@.len() as int) =~= tin);
        }
        let ghost tout = tickets_view(out@);
        let ghost ein = edges_view(all_edges@);
        let mut deps: Vec<(u128, u128)> = Vec::new();
        let mut e: usize = 0;
        while e < all_edges.len()
            invariant
                ein == edges_view(all_edges@),
                e <= all_edges@.len(),
                tout == tickets_view(out@),
                distinct_ids(tout),
                forall|id: u128| find_ticket(tout, id) == find_ticket(tin, id),
                deps@ == dep_pairs(ein.subrange(0, e as int), tin),
                forall|k: int| 0 <= k < deps@.len() ==> find_ticket(tout, #[trigger] deps@[k].0) is Some
                    && find_ticket(tout, deps@[k].1) is Some,
            decreases all_edges@.len() - e,
        {
            let edge = &all_edges[e];
            proof {
                reveal_strlit("depends_on");
                assert("depends_on"@ =~= depends_on_kind());
                assert(ein.subrange(0, e + 1).drop_last() =~= ein.subrange(0, e as int));
                assert(ein.subrange(0, e + 1).last() == edge@);
            }
            if str_eq(edge.kind.as_str(), "depends_on") {
                let from_known = Self::index_in(&out, edge.from).is_some();
                let to_known = Self::index_in(&out, edge.to).is_some();
                if from_known && to_known {
                    deps.push((edge.from, edge.to));
                }
            }
            e = e + 1;
        }
        proof {
            assert(ein.subrange(0, all_edges@.len() as int) =~= ein);
        }
        let mut model = WorkflowModel {
            tickets: out,
            state_index,
            priorities,
            efforts,
            facts: workflow_facts,
            deps,
            metrics: Vec::new(),
        };
        let mut ms: Vec<TicketConvergenceMetrics> = Vec::new();
        let mut k: usize = 0;
        while k < model.tickets.len()
            invariant
                model.wf_base(),
                k <= model.tickets@.len(),
                ms@.len() == k,
                forall|q: int| 0 <= q < k ==> model@.metrics_ok(#[trigger] model.tickets@[q].id, ms@[q]),
            decreases model.tickets@.len() - k,
        {
            let x = model.compute_metrics(model.tickets[k].id);
            ms.push(x);
            k = k + 1;
        }
        model.metrics = ms;
        model
    }

    /// Position of a ticket id in a ticket vector.
    fn index_in(ts: &Vec<IndexedTicket>, id: u128) -> (r: Option<usize>)
        ensures
            r is None <==> find_ticket(tickets_view(ts@), id) is None,
            r is Some ==> r->0 < ts@.len() && ts@[r->0 as int].id == id,
    {
        let ghost tv = tickets_view(ts@);
        let mut i: usize = 0;
        while i < ts.len()
            invariant
                tv == tickets_view(ts@),
                i <= ts@.len(),
                forall|j: int| 0 <= j < i ==> ts@[j].id != id,
            decreases ts@.len() - i,
        {
            if ts[i].id == id {
                assert(tv[i as int].id == id);
                proof { lemma_find_ticket(tv, id); }
                return Some(i);
            }
            i = i + 1;
        }
        assert forall|j: int| 0 <= j < tv.len() implies tv[j].id != id by {
            assert(tv[j] == ts@[j]@);
        }
        proof { lemma_find_ticket(tv, id); }
        None
    }

    /// Position of the ticket with this id.
    fn ticket_index(&self, id: u128) -> (r: Option<usize>)
        requires
            self.wf_base(),
        ensures
            r is None <==> !self@.known(id),
            r is Some ==> r->0 < self.tickets@.len() && self.tickets@[r->0 as int]@ == self@.ticket(id)
                && self.tickets@[r->0 as int].id == id,
    {
        let ghost tv = self@.tickets;
        proof { lemma_find_ticket(tv, id); }
        let mut i: usize = 0;
        while i < self.tickets.len()
            invariant
                self.wf_base(),
                tv == self@.tickets,
                tv == tickets_view(self.tickets@),
                i <= self.tickets@.len(),
                forall|j: int| 0 <= j < i ==> self.tickets@[j].id != id,
            decreases self.tickets@.len() - i,
        {
            if self.tickets[i].id == id {
                assert(tv[i as int].id == id);
                proof { lemma_find_ticket(tv, id); }
                assert(find_ticket(tv, id) == Some(tv[i as int]));
                return Some(i);
            }
            i = i + 1;
        }
        assert forall|j: int| 0 <= j < tv.len() implies tv[j].id != id by {
            assert(tv[j] == self.tickets@[j]@);
        }
        None
    }

    /// The ticket with this id, if the model knows it.
    pub fn ticket(&self, ticket_id: &u128) -> (r: Option<&IndexedTicket>)
        requires
            self.wf_base(),
        ensures
            r is None <==> !self@.known(*ticket_id),
            r is Some ==> r->0@ == self@.ticket(*ticket_id),
    {
        match self.ticket_index(*ticket_id) {
            Some(i) => Some(&self.tickets[i]),
            None => None,
        }
    }

    /// The recorded priority of a ticket.
    pub fn priority(&self, ticket_id: &u128) -> (r: Option<&str>)
        ensures
            opt_str_view(r) == self@.priority(*ticket_id),
    {
        let ghost pv = self@.priorities;
        let mut i = self.priorities.len();
        assert(pv.subrange(0, i as int) =~= pv);
        while i > 0
            invariant
                pv == priorities_view(self.priorities@),
                i <= self.priorities@.len(),
                assoc(pv, *ticket_id) == assoc(pv.subrange(0, i as int), *ticket_id),
            decreases i,
        {
            i = i - 1;
            assert(pv.subrange(0, i + 1).drop_last() =~= pv.subrange(0, i as int));
            if self.priorities[i].0 == *ticket_id {
                assert(pv[i as int] == (self.priorities@[i as int].0, self.priorities@[i as int].1@));
                return Some(self.priorities[i].1.as_str());
            }
        }
        None
    }

    /// The recorded priority of a ticket, or `none`.
    pub fn priority_or_none(&self, ticket_id: &u128) -> (r: &str)
        ensures
            r@ == self@.priority_or_none(*ticket_id),
    {
        match self.priority(ticket_id) {
            Some(p) => p,
            None => {
                proof {
                    reveal_strlit("none");
                    assert("none"@ =~= none_seq());
                }
                "none"
            },
        }
    }

    /// The recorded token-budget effort of a ticket.
    pub fn effort(&self, ticket_id: &u128) -> (r: Option<u64>)
        ensures
            r == self@.effort(*ticket_id),
    {
        let ghost ev = self@.efforts;
        let mut i = self.efforts.len();
        assert(ev.subrange(0, i as int) =~= ev);
        while i > 0
            invariant
                ev == self.efforts@,
                i <= self.efforts@.len(),
                assoc(ev, *ticket_id) == assoc(ev.subrange(0, i as int), *ticket_id),
            decreases i,
        {
            i = i - 1;
            assert(ev.subrange(0, i + 1).drop_last() =~= ev.subrange(0, i as int));
            if self.efforts[i].0 == *ticket_id {
                return Some(self.efforts[i].1);
            }
        }
        None
    }

    /// The recorded workflow facts of a ticket (defaults when absent).
    pub fn facts(&self, ticket_id: &u128) -> (r: WorkflowFacts)
        ensures
            r == self@.facts_of(*ticket_id),
    {
        let ghost fv = self@.facts;
        let mut i = self.facts.len();
        assert(fv.subrange(0, i as int) =~= fv);
        while i > 0
            invariant
                fv == self.facts@,
                i <= self.facts@.len(),
                assoc(fv, *ticket_id) == assoc(fv.subrange(0, i as int), *ticket_id),
            decreases i,
        {
            i = i - 1;
            assert(fv.subrange(0, i + 1).drop_last() =~= fv.subrange(0, i as int));
            if self.facts[i].0 == *ticket_id {
                return self.facts[i].1;
            }
        }
        WorkflowFacts { unresolved_dependency_count: 0, became_actionable_at: None, last_blocker_progress_at: None }
    }

    /// The state of a known ticket.
    fn state_str(&self, id: u128) -> (r: Option<&str>)
        requires
            self.wf_base(),
        ensures
            opt_str_view(r) == self@.state_of(id),
    {
        match self.ticket_index(id) {
            Some(i) => match &self.tickets[i].state {
                Some(st) => Some(st.as_str()),
                None => None,
            },
            None => None,
        }
    }

    /// Number of known prerequisites of a ticket.
    pub fn dependency_count(&self, ticket_id: &u128) -> (r: usize)
        ensures
            r == count_from(self@.deps, *ticket_id),
    {
        let ghost dv = self@.deps;
        let mut n: usize = 0;
        let mut i: usize = 0;
        while i < self.deps.len()
            invariant
                dv == self.deps@,
                i <= dv.len(),
                n == count_from(dv.subrange(0, i as int), *ticket_id),
            decreases dv.len() - i,
        {
            proof {
                assert(dv.subrange(0, i + 1).drop_last() =~= dv.subrange(0, i as int));
                lemma_count_bounds(dv.subrange(0, i as int), *ticket_id);
            }
            if self.deps[i].0 == *ticket_id {
                n = n + 1;
            }
            i = i + 1;
        }
        assert(dv.subrange(0, dv.len() as int) =~= dv);
        n
    }

    /// Number of known dependents of a ticket.
    pub fn dependee_count(&self, ticket_id: &u128) -> (r: usize)
        ensures
            r == count_to(self@.deps, *ticket_id),
    {
        let ghost dv = self@.deps;
        let mut n: usize = 0;
        let mut i: usize = 0;
        while i < self.deps.len()
            invariant
                dv == self.deps@,
                i <= dv.len(),
                n == count_to(dv.subrange(0, i as int), *ticket_id),
            decreases dv.len() - i,
        {
            proof {
                assert(dv.subrange(0, i + 1).drop_last() =~= dv.subrange(0, i as int));
                lemma_count_bounds(dv.subrange(0, i as int), *ticket_id);
            }
            if self.deps[i].1 == *ticket_id {
                n = n + 1;
            }
            i = i + 1;
        }
        assert(dv.subrange(0, dv.len() as int) =~= dv);
        n
    }

    /// The prerequisites of a ticket that are not done, minus `satisfied`.
    pub fn unresolved_dependencies_excluding(&self, ticket_id: &u128, satisfied_ids: &Vec<u128>) -> (r: Vec<u128>)
        requires
            self.wf_base(),
        ensures
            r@ == without(self@.unresolved(*ticket_id), satisfied_ids@),
    {
        let ghost dv = self@.deps;
        let mut out: Vec<u128> = Vec::new();
        let mut i: usize = 0;
        while i < self.deps.len()
            invariant
                self.wf_base(),
                dv == self@.deps,
                dv == self.deps@,
                i <= dv.len(),
                out@ == without(unresolved_in(self@, dv.subrange(0, i as int), *ticket_id), satisfied_ids@),
            decreases dv.len() - i,
        {
            proof {
                assert(dv.subrange(0, i + 1).drop_last() =~= dv.subrange(0, i as int));
            }
            let d = self.deps[i];
            proof {
                let rest = unresolved_in(self@, dv.subrange(0, i as int), *ticket_id);
                assert(dv.subrange(0, i + 1).last() == d);
                assert(rest.push(d.1).drop_last() =~= rest);
                assert(rest.push(d.1).last() == d.1);
            }
            if d.0 == *ticket_id && !is_done_state(self.state_str(d.1)) {
                if !contains_id(satisfied_ids, d.1) {
                    out.push(d.1);
                }
            }
            i = i + 1;
        }
        assert(dv.subrange(0, dv.len() as int) =~= dv);
        out
    }

    /// The unresolved prerequisites of a ticket; `None` when it has none.
    pub fn unresolved_dependencies(&self, ticket_id: &u128) -> (r: Option<Vec<u128>>)
        requires
            self.wf_base(),
        ensures
            r is None <==> self@.unresolved(*ticket_id).len() == 0,
            r is Some ==> r->0@ == self@.unresolved(*ticket_id),
    {
        let v = self.unresolved_dependencies_excluding(ticket_id, &Vec::new());
        proof { lemma_without_empty(self@.unresolved(*ticket_id)); }
        if v.len() == 0 {
            None
        } else {
            Some(v)
        }
    }

    /// The direct dependents of a ticket, in edge order.
    fn dependents_of(&self, ticket_id: u128) -> (r: Vec<u128>)
        ensures
            r@ == dependents_in(self@.deps, ticket_id),
    {
        let ghost dv = self@.deps;
        let mut out: Vec<u128> = Vec::new();
        let mut i: usize = 0;
        while i < self.deps.len()
            invariant
                dv == self.deps@,
                i <= dv.len(),
                out@ == dependents_in(dv.subrange(0, i as int), ticket_id),
            decreases dv.len() - i,
        {
            proof {
                assert(dv.subrange(0, i + 1).drop_last() =~= dv.subrange(0, i as int));
            }
            if self.deps[i].1 == ticket_id {
                out.push(self.deps[i].0);
            }
            i = i + 1;
        }
        assert(dv.subrange(0, dv.len() as int) =~= dv);
        out
    }

    /// All tickets that depend on `root_id` directly or transitively
    /// (each listed once, never `root_id` itself), in breadth-first order.
    pub fn reverse_dependents(&self, root_id: u128) -> (r: Vec<u128>)
        requires
            self.wf_base(),
        ensures
            r@.no_duplicates(),
            r@.to_set() == reverse_dependent_set(self@.deps, root_id),
    {
        let ghost deps = self@.deps;
        let mut found: Vec<u128> = Vec::new();
        let mut root_done = false;
        let mut pos: usize = 0;
        while !root_done || pos < found.len()
            invariant
                deps == self@.deps,
                pos <= found@.len(),
                !root_done ==> pos == 0,
                found@.no_duplicates(),
                !found@.contains(root_id),
                forall|k: int| 0 <= k < found@.len() ==> relies_on(deps, #[trigger] found@[k], root_id),
                forall|k: int| 0 <= k < found@.len() ==> exists|i: int| 0 <= i < deps.len() && deps[i].0 == #[trigger] found@[k],
                forall|x: u128, f: u128|
                    ((root_done && x == root_id) || exists|k: int| 0 <= k < pos && found@[k] == x)
                    && #[trigger] is_dep(deps, f, x) ==> f == root_id || found@.contains(f),
            decreases (if root_done { 0int } else { 1int }) + deps.len() - pos,
        {
            proof {
                let froms = deps.map_values(|p: (u128, u128)| p.0);
                assert(found@.to_set().subset_of(froms.to_set())) by {
                    assert forall|v: u128| found@.to_set().contains(v) implies froms.to_set().contains(v) by {
                        let k = choose|k: int| 0 <= k < found@.len() && found@[k] == v;
                        let i = choose|i: int| 0 <= i < deps.len() && deps[i].0 == found@[k];
                        assert(froms[i] == v);
                    }
                }
                found@.unique_seq_to_set();
                froms.lemma_cardinality_of_set();
                vstd::seq_lib::seq_to_set_is_finite(froms);
                vstd::set_lib::lemma_len_subset(found@.to_set(), froms.to_set());
            }
            let x = if !root_done { root_id } else { found[pos] };
            let ds = self.dependents_of(x);
            proof { lemma_dependents_in(deps, x); }
            let ghost before = found@;
            let mut j: usize = 0;
            while j < ds.len()
                invariant
                    deps == self@.deps,
                    ds@ == dependents_in(deps, x),
                    forall|f: u128| ds@.contains(f) <==> is_dep(deps, f, x),
                    x == root_id || relies_on(deps, x, root_id),
                    j <= ds@.len(),
                    before.len() <= found@.len(),
                    forall|k: int| 0 <= k < before.len() ==> found@[k] == before[k],
                    found@.no_duplicates(),
                    !found@.contains(root_id),
                    forall|k: int| 0 <= k < found@.len() ==> relies_on(deps, #[trigger] found@[k], root_id),
                    forall|k: int| 0 <= k < found@.len() ==> exists|i: int| 0 <= i < deps.len() && deps[i].0 == #[trigger] found@[k],
                    forall|k: int| 0 <= k < j ==> ds@[k] == root_id || found@.contains(#[trigger] ds@[k]),
                decreases ds@.len() - j,
            {
                let f = ds[j];
                assert(ds@.contains(f));
                let ghost fb = found@;
                if f != root_id && !contains_id(&found, f) {
                    proof {
                        lemma_extend_chain(deps, root_id, x, f);
                        let i = choose|i: int| 0 <= i < deps.len() && deps[i] == (f, x);
                        assert(deps[i].0 == f);
                    }
                    found.push(f);
                    proof {
                        assert(found@ == fb.push(f));
                        assert forall|k: int| 0 <= k < j + 1 implies ds@[k] == root_id || found@.contains(#[trigger] ds@[k]) by {
                            if k < j {
                                if ds@[k] != root_id {
                                    assert(fb.contains(ds@[k]));
                                    let m = choose|m: int| 0 <= m < fb.len() && fb[m] == ds@[k];
                                    assert(found@[m] == ds@[k]);
                                }
                            } else {
                                assert(found@[found@.len() - 1] == f);
                            }
                        }
                        assert forall|k: int| 0 <= k < found@.len() implies exists|i: int| 0 <= i < deps.len() && deps[i].0 == #[trigger] found@[k] by {
                            if k < fb.len() {
                                assert(found@[k] == fb[k]);
                            }
                        }
                        assert forall|k: int| 0 <= k < found@.len() implies relies_on(deps, #[trigger] found@[k], root_id) by {
                            if k < fb.len() {
                                assert(found@[k] == fb[k]);
                            }
                        }
                    }
                }
                j = j + 1;
            }
            proof {
                assert forall|y: u128, g: u128|
                    ((true && y == root_id) || exists|k: int| 0 <= k < (if root_done { pos + 1 } else { pos as int }) && found@[k] == y)
                    && #[trigger] is_dep(deps, g, y) implies g == root_id || found@.contains(g) by {
                    if y == x {
                        assert(ds@.contains(g));
                        let k = choose|k: int| 0 <= k < ds@.len() && ds@[k] == g;
                        assert(ds@[k] == root_id || found@.contains(ds@[k]));
                    } else {
                        let was = (root_done && y == root_id) || exists|k: int| 0 <= k < pos && before[k] == y;
                        if y != root_id {
                            let k = choose|k: int| 0 <= k < (if root_done { pos + 1 } else { pos as int }) && found@[k] == y;
                            if root_done && k == pos {
                                assert(found@[k] == x);
                            } else {
                                assert(before[k] == y);
                            }
                        }
                        assert(was);
                        if g != root_id {
                            assert(before.contains(g));
                            let m = choose|m: int| 0 <= m < before.len() && before[m] == g;
                            assert(found@[m] == g);
                        }
                    }
                }
            }
            if !root_done {
                root_done = true;
            } else {
                pos = pos + 1;
            }
        }
        proof {
            let inside = found@.to_set().insert(root_id);
            assert forall|x: u128, f: u128| inside.contains(x) && #[trigger] is_dep(deps, f, x) implies inside.contains(f) by {
                if x != root_id {
                    let k = choose|k: int| 0 <= k < found@.len() && found@[k] == x;
                    assert(exists|k2: int| 0 <= k2 < pos && found@[k2] == x);
                }
            }
            assert forall|d: u128| found@.to_set().contains(d) <==> reverse_dependent_set(deps, root_id).contains(d) by {
                if found@.to_set().contains(d) {
                    let k = choose|k: int| 0 <= k < found@.len() && found@[k] == d;
                    assert(relies_on(deps, found@[k], root_id));
                }
                if reverse_dependent_set(deps, root_id).contains(d) {
                    let p = choose|p: Seq<u128>| #[trigger] is_dependent_chain(deps, p) && p[0] == root_id && p.last() == d;
                    lemma_closed_chain(deps, root_id, inside, p);
                    assert(inside.contains(p[p.len() - 1]));
                }
            }
            assert(found@.to_set() =~= reverse_dependent_set(deps, root_id));
        }
        found
    }

    /// Compute the convergence metrics of one ticket.
    fn compute_metrics(&self, ticket_id: u128) -> (r: TicketConvergenceMetrics)
        requires
            self.wf_base(),
        ensures
            self@.metrics_ok(ticket_id, r),
    {
        let ghost m = self@;
        let found = self.reverse_dependents(ticket_id);
        proof { found@.unique_seq_to_set(); }
        // affected: dependents that are not done
        let mut aff: Vec<u128> = Vec::new();
        let mut i: usize = 0;
        while i < found.len()
            invariant
                self.wf_base(),
                m == self@,
                i <= found@.len(),
                found@.no_duplicates(),
                aff@.no_duplicates(),
                forall|v: u128| aff@.contains(v) <==> (exists|k: int| 0 <= k < i && found@[k] == v) && !is_done_spec(m.state_of(v)),
            decreases found@.len() - i,
        {
            let d = found[i];
            let ghost ab = aff@;
            if !is_done_state(self.state_str(d)) {
                proof {
                    if ab.contains(d) {
                        let k = choose|k: int| 0 <= k < i && found@[k] == d;
                        assert(found@[k] == found@[i as int]);
                    }
                }
                aff.push(d);
                proof {
                    assert(aff@ == ab.push(d));
                    assert forall|v: u128| aff@.contains(v) <==> (exists|k: int| 0 <= k < i + 1 && found@[k] == v) && !is_done_spec(m.state_of(v)) by {
                        if aff@.contains(v) {
                            let q = choose|q: int| 0 <= q < aff@.len() && aff@[q] == v;
                            if q < ab.len() {
                                assert(ab[q] == v);
                                assert(ab.contains(v));
                            } else {
                                assert(found@[i as int] == v);
                            }
                        }
                        if (exists|k: int| 0 <= k < i + 1 && found@[k] == v) && !is_done_spec(m.state_of(v)) {
                            let k = choose|k: int| 0 <= k < i + 1 && found@[k] == v;
                            if k < i {
                                assert(ab.contains(v));
                                let q = choose|q: int| 0 <= q < ab.len() && ab[q] == v;
                                assert(aff@[q] == v);
                            } else {
                                assert(aff@[ab.len() as int] == v);
                            }
                        }
                    }
                }
            } else {
                proof {
                    assert forall|v: u128| aff@.contains(v) <==> (exists|k: int| 0 <= k < i + 1 && found@[k] == v) && !is_done_spec(m.state_of(v)) by {
                        if (exists|k: int| 0 <= k < i + 1 && found@[k] == v) && !is_done_spec(m.state_of(v)) {
                            let k = choose|k: int| 0 <= k < i + 1 && found@[k] == v;
                            assert(k < i);
                        }
                    }
                }
            }
            i = i + 1;
        }
        proof {
            assert forall|v: u128| aff@.to_set().contains(v) <==> m.affected_set(ticket_id).contains(v) by {
                if m.affected_set(ticket_id).contains(v) {
                    assert(found@.to_set().contains(v));
                    let k = choose|k: int| 0 <= k < found@.len() && found@[k] == v;
                    assert(exists|k2: int| 0 <= k2 < found@.len() && found@[k2] == v);
                }
                if aff@.contains(v) {
                    let k = choose|k: int| 0 <= k < found@.len() && found@[k] == v;
                    assert(found@.to_set().contains(v));
                }
            }
            assert(aff@.to_set() =~= m.affected_set(ticket_id));
            aff@.unique_seq_to_set();
        }
        // the most advanced positioned state among the affected dependents
        let mut best: Option<(usize, usize)> = None;
        let mut j: usize = 0;
        while j < aff.len()
            invariant
                self.wf_base(),
                m == self@,
                j <= aff@.len(),
                best is None <==> forall|q: int| 0 <= q < j ==> m.position_of(#[trigger] aff@[q]) is None,
                best matches Some(b) ==> b.1 < j && m.position_of(aff@[b.1 as int]) == Some(b.0)
                    && forall|q: int| 0 <= q < j && m.position_of(#[trigger] aff@[q]) is Some ==> m.position_of(aff@[q])->0 <= b.0,
            decreases aff@.len() - j,
        {
            let d = aff[j];
            match self.state_position(self.state_str(d)) {
                Some(k) => {
                    match best {
                        Some(b) => {
                            if k >= b.0 {
                                best = Some((k, j));
                            }
                        },
                        None => {
                            best = Some((k, j));
                        },
                    }
                },
                None => {},
            }
            j = j + 1;
        }
        let own_rank = self.state_rank(self.state_str(ticket_id));
        let (max_state, max_index) = match best {
            Some(b) => {
                let st = self.state_str(aff[b.1]);
                let st_owned = match st {
                    Some(x) => Some(x.to_owned()),
                    None => None,
                };
                (st_owned, Some(b.0))
            },
            None => (None, None),
        };
        proof {
            let pa = m.positioned_affected(ticket_id);
            match best {
                Some(b) => {
                    let d = aff@[b.1 as int];
                    assert(aff@.to_set().contains(d));
                    assert(pa.contains(d));
                    assert forall|e: u128| #[trigger] pa.contains(e) implies m.position_of(e)->0 <= b.0 by {
                        assert(aff@.to_set().contains(e));
                        let q = choose|q: int| 0 <= q < aff@.len() && aff@[q] == e;
                        assert(m.position_of(aff@[q]) is Some);
                    }
                },
                None => {
                    assert forall|e: u128| !pa.contains(e) by {
                        if pa.contains(e) {
                            assert(aff@.to_set().contains(e));
                            let q = choose|q: int| 0 <= q < aff@.len() && aff@[q] == e;
                            assert(m.position_of(aff@[q]) is None);
                        }
                    }
                    assert(pa =~= Set::empty());
                },
            }
        }
        let gap = match max_index {
            Some(k) => if k >= own_rank { k - own_rank } else { 0 },
            None => 0,
        };
        let facts = self.facts(&ticket_id);
        TicketConvergenceMetrics {
            dependency_count: self.dependency_count(&ticket_id),
            immediate_dependees: self.dependee_count(&ticket_id),
            transitive_reverse_dependents: found.len(),
            affected_reverse_dependent_reach: aff.len(),
            max_affected_dependent_state: max_state,
            max_affected_dependent_state_index: max_index,
            dependency_state_gap: gap,
            became_actionable_at: facts.became_actionable_at,
            last_blocker_progress_at: facts.last_blocker_progress_at,
        }
    }

    /// The convergence metrics of a known ticket.
    pub fn metrics(&self, ticket_id: &u128) -> (r: Option<&TicketConvergenceMetrics>)
        requires
            self.wf(),
        ensures
            r is None <==> !self@.known(*ticket_id),
            r matches Some(x) ==> self@.metrics_ok(*ticket_id, *x) && *x == self.metrics_of(*ticket_id),
    {
        match self.ticket_index(*ticket_id) {
            Some(i) => {
                proof {
                    let j = choose|j: int| 0 <= j < self.tickets@.len() && self.tickets@[j].id == *ticket_id;
                    assert(self@.tickets[j].id == self@.tickets[i as int].id);
                }
                Some(&self.metrics[i])
            },
            None => None,
        }
    }

    /// The ranking key of one candidate.
    fn key_for(&self, id: u128) -> (k: CandidateKeyExec)
        requires
            self.wf(),
        ensures
            k@ == self.candidate_key(id),
    {
        match self.ticket_index(id) {
            None => {
                CandidateKeyExec {
                    known: false,
                    max_index: 0,
                    gap: 0,
                    reach: 0,
                    effort: 0,
                    actionable_at: None,
                    priority_weight: 0,
                    state_rank: 0,
                    transitive: 0,
                    dependees: 0,
                    created_at: 0,
                    title: Vec::new(),
                    id,
                }
            },
            Some(i) => {
                let x = self.metrics(&id).unwrap();
                let t = &self.tickets[i];
                let title = match &t.title {
                    Some(s) => crate::text::chars_of(s.as_str()),
                    None => Vec::new(),
                };
                let st = match &t.state {
                    Some(s) => Some(s.as_str()),
                    None => None,
                };
                let k = CandidateKeyExec {
                    known: true,
                    max_index: match x.max_affected_dependent_state_index {
                        Some(k) => k,
                        None => 0,
                    },
                    gap: x.dependency_state_gap,
                    reach: x.affected_reverse_dependent_reach,
                    effort: effort_sort_key(self.effort(&id)),
                    actionable_at: x.became_actionable_at,
                    priority_weight: priority_weight(self.priority_or_none(&id)),
                    state_rank: self.state_rank(st),
                    transitive: x.transitive_reverse_dependents,
                    dependees: x.immediate_dependees,
                    created_at: t.created_at,
                    title,
                    id,
                };
                proof {
                    assert(opt_str_view(st) == self@.state_of(id));
                    assert(k@.title =~= self.candidate_key(id).title);
                }
                k
            },
        }
    }

    /// Sort candidate ids into ranking order (see [`candidate_order`]).
    pub fn sort_candidate_ids(&self, candidates: &mut Vec<u128>)
        requires
            self.wf(),
        ensures
            final(candidates)@.to_multiset() == old(candidates)@.to_multiset(),
            forall|i: int, j: int| 0 <= i < j < final(candidates)@.len()
                ==> candidate_order(self.candidate_key(final(candidates)@[i]), self.candidate_key(final(candidates)@[j])) <= 0,
    {
        let ghost orig = candidates@;
        let mut keys: Vec<CandidateKeyExec> = Vec::new();
        let mut i: usize = 0;
        while i < candidates.len()
            invariant
                self.wf(),
                orig == candidates@,
                i <= candidates@.len(),
                keys@.len() == i,
                forall|q: int| 0 <= q < i ==> #[trigger] keys@[q]@ == self.candidate_key(candidates@[q]),
            decreases candidates@.len() - i,
        {
            let k = self.key_for(candidates[i]);
            keys.push(k);
            i = i + 1;
        }
        let ghost kin = keys_view(keys@);
        proof {
            assert(kin =~= orig.map_values(|id: u128| self.candidate_key(id)));
        }
        let sorted = sort_candidate_keys(keys);
        let mut out: Vec<u128> = Vec::new();
        let mut j: usize = 0;
        while j < sorted.len()
            invariant
                j <= sorted@.len(),
                out@.len() == j,
                forall|q: int| 0 <= q < j ==> out@[q] as int == #[trigger] sorted@[q]@.id,
            decreases sorted@.len() - j,
        {
            out.push(sorted[j].id);
            j = j + 1;
        }
        proof {
            let sv = keys_view(sorted@);
            let idf = |k: CandidateKey| k.id;
            lemma_multiset_map(sv, kin, idf);
            let kf = |id: u128| self.candidate_key(id);
            let back = |k: CandidateKey| k.id as u128;
            assert(kin.map_values(back) =~= orig) by {
                assert forall|q: int| 0 <= q < orig.len() implies kin.map_values(back)[q] == orig[q] by {
                    assert(kin[q] == self.candidate_key(orig[q]));
                }
            }
            lemma_multiset_map(sv, kin, back);
            assert(sv.map_values(back) =~= out@) by {
                assert forall|q: int| 0 <= q < out@.len() implies sv.map_values(back)[q] == out@[q] by {
                    assert(sv[q] == sorted@[q]@);
                }
            }
            assert forall|a: int, b: int| 0 <= a < b < out@.len()
                implies candidate_order(self.candidate_key(out@[a]), self.candidate_key(out@[b])) <= 0 by {
                assert(sv[a] == sorted@[a]@ && sv[b] == sorted@[b]@);
                lemma_sorted_key(self, sv, kin, orig, a);
                lemma_sorted_key(self, sv, kin, orig, b);
            }
        }
        *candidates = out;
    }

    /// Tickets in `scope` (every ticket when absent) whose state makes them
    /// candidates, in model order.
    pub fn eligible_candidate_ids(&self, scope: Option<&Vec<u128>>) -> (r: Vec<u128>)
        requires
            self.wf(),
        ensures
            r@ == eligible_in(self@.tickets, match scope { Some(v) => Some(v@), None => None }),
    {
        let ghost tv = self@.tickets;
        let ghost sc = match scope { Some(v) => Some(v@), None => None };
        let mut out: Vec<u128> = Vec::new();
        let mut i: usize = 0;
        while i < self.tickets.len()
            invariant
                tv == tickets_view(self.tickets@),
                sc == match scope { Some(v) => Some(v@), None => None::<Seq<u128>> },
                i <= tv.len(),
                out@ == eligible_in(tv.subrange(0, i as int), sc),
            decreases tv.len() - i,
        {
            proof {
                assert(tv.subrange(0, i + 1).drop_last() =~= tv.subrange(0, i as int));
                assert(tv.subrange(0, i + 1).last() == self.tickets@[i as int]@);
            }
            let t = &self.tickets[i];
            let in_scope = match scope {
                Some(v) => contains_id(v, t.id),
                None => true,
            };
            let st = match &t.state {
                Some(s) => Some(s.as_str()),
                None => None,
            };
            if in_scope && is_candidate_state(st) {
                out.push(t.id);
            }
            i = i + 1;
        }
        assert(tv.subrange(0, tv.len() as int) =~= tv);
        out
    }

    /// Eligible candidates whose unresolved prerequisites are all in
    /// `satisfied_ids`.
    pub fn actionable_candidate_ids_with_satisfied(&self, scope: Option<&Vec<u128>>, satisfied_ids: &Vec<u128>) -> (r: Vec<u128>)
        requires
            self.wf(),
        ensures
            r@ == actionable_in(self@, eligible_in(self@.tickets, match scope { Some(v) => Some(v@), None => None }), satisfied_ids@),
    {
        let e = self.eligible_candidate_ids(scope);
        let mut out: Vec<u128> = Vec::new();
        let mut i: usize = 0;
        while i < e.len()
            invariant
                self.wf(),
                i <= e@.len(),
                out@ == actionable_in(self@, e@.subrange(0, i as int), satisfied_ids@),
            decreases e@.len() - i,
        {
            proof {
                assert(e@.subrange(0, i + 1).drop_last() =~= e@.subrange(0, i as int));
                assert(e@.subrange(0, i + 1).last() == e@[i as int]);
            }
            let rest = self.unresolved_dependencies_excluding(&e[i], satisfied_ids);
            if rest.len() == 0 {
                out.push(e[i]);
            }
            i = i + 1;
        }
        assert(e@.subrange(0, e@.len() as int) =~= e@);
        out
    }

    /// Eligible candidates with no unresolved prerequisites.
    pub fn actionable_candidate_ids(&self, scope: Option<&Vec<u128>>) -> (r: Vec<u128>)
        requires
            self.wf(),
        ensures
            r@ == actionable_in(self@, eligible_in(self@.tickets, match scope { Some(v) => Some(v@), None => None }), Seq::empty()),
    {
        let none: Vec<u128> = Vec::new();
        proof { assert(none@ =~= Seq::<u128>::empty()); }
        self.actionable_candidate_ids_with_satisfied(scope, &none)
    }

    /// The dependency-state inversions of one dependent ticket, widest state
    /// gap first, then widest affected reach, then prerequisite id; `None`
    /// when the ticket has none.
    pub fn dependency_state_inversions(&self, dependent_id: &u128) -> (r: Option<Vec<DependencyStateInversion>>)
        requires
            self.wf(),
        ensures
            r is None <==> self.raw_inversions(self@.deps, *dependent_id).len() == 0,
            r matches Some(v) ==> inversions_view(v@).to_multiset() == self.raw_inversions(self@.deps, *dependent_id).to_multiset(),
            r matches Some(v) ==> forall|i: int, j: int| 0 <= i < j < v@.len()
                ==> inversion_order(inversion_triple(v@[i]@), inversion_triple(v@[j]@)) <= 0,
    {
        let id = *dependent_id;
        let ghost dv = self@.deps;
        let mut raw: Vec<DependencyStateInversion> = Vec::new();
        let mut keys: Vec<(usize, usize, u128, usize)> = Vec::new();
        let mut i: usize = 0;
        while i < self.deps.len()
            invariant
                self.wf(),
                dv == self@.deps,
                dv == self.deps@,
                i <= dv.len(),
                inversions_view(raw@) == self.raw_inversions(dv.subrange(0, i as int), id),
                keys@.len() == raw@.len(),
                forall|q: int| 0 <= q < keys@.len() ==> #[trigger] keys@[q] == (raw@[q].dependency_state_gap,
                    raw@[q].affected_reverse_dependent_reach, raw@[q].prerequisite_id, q as usize),
            decreases dv.len() - i,
        {
            proof {
                assert(dv.subrange(0, i + 1).drop_last() =~= dv.subrange(0, i as int));
                assert(dv.subrange(0, i + 1).last() == dv[i as int]);
            }
            let d = self.deps[i];
            if d.0 == id {
                let ds = self.state_str(d.0);
                let ps = self.state_str(d.1);
                if !is_done_state(ds) && !is_done_state(ps) {
                    let dr = self.state_rank(ds);
                    let pr = self.state_rank(ps);
                    if dr > pr {
                        let di = self.ticket_index(d.0).unwrap();
                        let pi = self.ticket_index(d.1).unwrap();
                        let pm = self.metrics(&d.1).unwrap();
                        let x = DependencyStateInversion {
                            dependent_id: d.0,
                            dependent_title: clone_opt_string(&self.tickets[di].title),
                            dependent_state: clone_opt_string(&self.tickets[di].state),
                            prerequisite_id: d.1,
                            prerequisite_title: clone_opt_string(&self.tickets[pi].title),
                            prerequisite_state: clone_opt_string(&self.tickets[pi].state),
                            dependency_state_gap: dr - pr,
                            affected_reverse_dependent_reach: pm.affected_reverse_dependent_reach,
                            transitive_reverse_dependents: pm.transitive_reverse_dependents,
                        };
                        let ghost rb = raw@;
                        keys.push((x.dependency_state_gap, x.affected_reverse_dependent_reach, x.prerequisite_id, raw.len()));
                        raw.push(x);
                        proof {
                            assert(inversions_view(raw@) =~= inversions_view(rb).push(raw@[rb.len() as int]@));
                        }
                    }
                }
            }
            i = i + 1;
        }
        assert(dv.subrange(0, dv.len() as int) =~= dv);
        if raw.len() == 0 {
            return None;
        }
        let ghost kin = keys@;
        let sorted = sort_inv_keys(keys);
        let mut out: Vec<DependencyStateInversion> = Vec::new();
        let mut j: usize = 0;
        while j < sorted.len()
            invariant
                j <= sorted@.len(),
                out@.len() == j,
                sorted@.to_multiset() == kin.to_multiset(),
                kin.len() == raw@.len(),
                raw@.len() <= usize::MAX,
                forall|q: int| 0 <= q < kin.len() ==> #[trigger] kin[q] == (raw@[q].dependency_state_gap,
                    raw@[q].affected_reverse_dependent_reach, raw@[q].prerequisite_id, q as usize),
                forall|q: int| 0 <= q < j ==> #[trigger] sorted@[q].3 < raw@.len(),
                forall|q: int| 0 <= q < j ==> #[trigger] out@[q] == raw@[sorted@[q].3 as int],
            decreases sorted@.len() - j,
        {
            proof { lemma_key_in(sorted@, kin, raw@, j as int); }
            let pos = sorted[j].3;
            let x = &raw[pos];
            let y = DependencyStateInversion {
                dependent_id: x.dependent_id,
                dependent_title: clone_opt_string(&x.dependent_title),
                dependent_state: clone_opt_string(&x.dependent_state),
                prerequisite_id: x.prerequisite_id,
                prerequisite_title: clone_opt_string(&x.prerequisite_title),
                prerequisite_state: clone_opt_string(&x.prerequisite_state),
                dependency_state_gap: x.dependency_state_gap,
                affected_reverse_dependent_reach: x.affected_reverse_dependent_reach,
                transitive_reverse_dependents: x.transitive_reverse_dependents,
            };
            assert(y == raw@[pos as int]);
            let ghost ob = out@;
            out.push(y);
            assert(out@ == ob.push(y));
            assert forall|q: int| 0 <= q < j + 1 implies #[trigger] out@[q] == raw@[sorted@[q].3 as int] by {
                if q < j {
                    assert(out@[q] == ob[q]);
                }
            }
            j = j + 1;
        }
        proof {
            let f = |k: (usize, usize, u128, usize)| raw@[k.3 as int]@;
            lemma_multiset_map(sorted@, kin, f);
            assert(kin.map_values(f) =~= inversions_view(raw@));
            assert(sorted@.map_values(f) =~= inversions_view(out@));
            assert forall|a: int, b: int| 0 <= a < b < out@.len()
                implies inversion_order(inversion_triple(out@[a]@), inversion_triple(out@[b]@)) <= 0 by {
                lemma_key_in(sorted@, kin, raw@, a);
                lemma_key_in(sorted@, kin, raw@, b);
                assert(inv_key_order(sorted@[a], sorted@[b]) <= 0);
            }
        }
        Some(out)
    }

    fn tree_key_exec(&self, n: &WorkflowTreeNode) -> (k: TreeKeyExec)
        ensures
            k@ == self.tree_key(*n),
    {
        let title = match &n.title {
            Some(s) => crate::text::chars_of(s.as_str()),
            None => Vec::new(),
        };
        let k = TreeKeyExec {
            frontier: n.unresolved_frontier_leaf_count,
            distance: n.blocker_distance,
            effort: effort_sort_key(self.effort(&n.ticket_id)),
            gap: n.dependency_state_gap,
            reach: n.affected_reverse_dependent_reach,
            transitive: n.transitive_reverse_dependents,
            priority_weight: priority_weight(n.priority.as_str()),
            title,
            id: n.ticket_id,
        };
        assert(k@.title =~= self.tree_key(*n).title);
        k
    }

    /// Stable insertion sort of sibling nodes into tree order.
    fn sort_tree_nodes(&self, nodes: Vec<WorkflowTreeNode>) -> (r: Vec<WorkflowTreeNode>)
        ensures
            r@.to_multiset() == nodes@.to_multiset(),
            self.nodes_sorted(r@),
    {
        broadcast use vstd::seq_lib::group_to_multiset_ensures;
        let mut nodes = nodes;
        let ghost orig = nodes@;
        let mut out: Vec<WorkflowTreeNode> = Vec::new();
        while nodes.len() > 0
            invariant
                out@.to_multiset().add(nodes@.to_multiset()) == orig.to_multiset(),
                self.nodes_sorted(out@),
            decreases nodes@.len(),
        {
            let ghost nb = nodes@;
            let n = nodes.remove(0);
            let kn = self.tree_key_exec(&n);
            let ghost ov = out@;
            let mut p: usize = 0;
            let mut stop = false;
            while p < out.len() && !stop
                invariant
                    ov == out@,
                    kn@ == self.tree_key(n),
                    p <= out@.len(),
                    forall|q: int| 0 <= q < p ==> tree_key_order(self.tree_key(ov[q]), self.tree_key(n)) <= 0,
                    stop ==> p < out@.len() && tree_key_order(self.tree_key(n), self.tree_key(ov[p as int])) < 0,
                decreases out@.len() - p + (if stop { 0int } else { 1int }),
            {
                let kp = self.tree_key_exec(&out[p]);
                let c = compare_tree_keys(&kn, &kp);
                if c < 0 {
                    stop = true;
                } else {
                    proof { lemma_tree_key_order(self.tree_key(n), self.tree_key(ov[p as int])); }
                    p = p + 1;
                }
            }
            let ghost nv = n;
            out.insert(p, n);
            proof {
                self.lemma_insert_node_sorted(ov, p as int, nv);
                broadcast use vstd::multiset::group_multiset_axioms;
                vstd::seq_lib::to_multiset_insert(ov, p as int, nv);
                vstd::seq_lib::to_multiset_remove(nb, 0);
                nb.to_multiset_ensures();
                assert(nb.contains(nv));
                assert(ov.to_multiset().insert(nv).add(nb.to_multiset().remove(nv)) =~= ov.to_multiset().add(nb.to_multiset()));
            }
        }
        out
    }

    proof fn lemma_insert_node_sorted(&self, ov: Seq<WorkflowTreeNode>, p: int, kv: WorkflowTreeNode)
        requires
            self.nodes_sorted(ov),
            0 <= p <= ov.len(),
            forall|q: int| 0 <= q < p ==> tree_key_order(self.tree_key(ov[q]), self.tree_key(kv)) <= 0,
            p < ov.len() ==> tree_key_order(self.tree_key(kv), self.tree_key(ov[p])) < 0,
        ensures
            self.nodes_sorted(ov.insert(p, kv)),
    {
        let nv = ov.insert(p, kv);
        ov.insert_ensures(p, kv);
        assert forall|i: int, j: int| 0 <= i < j < nv.len() implies tree_key_order(self.tree_key(nv[i]), self.tree_key(nv[j])) <= 0 by {
            if j < p {
                assert(nv[i] == ov[i] && nv[j] == ov[j]);
            } else if j == p {
                assert(nv[i] == ov[i]);
            } else if i == p {
                assert(nv[j] == ov[j - 1]);
                if j - 1 > p {
                    assert(tree_key_order(self.tree_key(ov[p]), self.tree_key(ov[j - 1])) <= 0);
                    lemma_tree_key_order_trans(self.tree_key(kv), self.tree_key(ov[p]), self.tree_key(ov[j - 1]));
                }
            } else if i < p {
                assert(nv[i] == ov[i] && nv[j] == ov[j - 1]);
            } else {
                assert(nv[i] == ov[i - 1] && nv[j] == ov[j - 1]);
            }
        }
    }

    /// Assemble a tree node: sort the children, then derive the frontier
    /// leaves, the blocker distance and the metric fields.
    fn finalize_tree_node(
        &self,
        ticket_id: u128,
        remaining_blocker_count: usize,
        is_frontier: bool,
        children: Vec<WorkflowTreeNode>,
        fallback_distance: usize,
    ) -> (r: WorkflowTreeNode)
        requires
            self.wf(),
            self@.known(ticket_id),
        ensures
            r.ticket_id == ticket_id,
            r.remaining_blocker_count == remaining_blocker_count,
            r.is_frontier == is_frontier,
            r.children@.to_multiset() == children@.to_multiset(),
            self.nodes_sorted(r.children@),
            self.node_summary_ok(r, fallback_distance),
    {
        let children = self.sort_tree_nodes(children);
        let mut leaves: Vec<u128> = Vec::new();
        if is_frontier || children.len() == 0 {
            leaves.push(ticket_id);
            assert(leaves@ =~= seq![ticket_id]);
        } else {
            let mut i: usize = 0;
            while i < children.len()
                invariant
                    i <= children@.len(),
                    leaves@ == frontier_concat(children@.subrange(0, i as int)),
                decreases children@.len() - i,
            {
                proof {
                    assert(children@.subrange(0, i + 1).drop_last() =~= children@.subrange(0, i as int));
                    assert(children@.subrange(0, i + 1).last() == children@[i as int]);
                }
                let ghost lb = leaves@;
                let c = &children[i];
                let mut k: usize = 0;
                while k < c.frontier_leaf_ids.len()
                    invariant
                        k <= c.frontier_leaf_ids@.len(),
                        leaves@ == lb + c.frontier_leaf_ids@.subrange(0, k as int),
                    decreases c.frontier_leaf_ids@.len() - k,
                {
                    leaves.push(c.frontier_leaf_ids[k]);
                    assert(c.frontier_leaf_ids@.subrange(0, k + 1) =~= c.frontier_leaf_ids@.subrange(0, k as int).push(c.frontier_leaf_ids@[k as int]));
                    k = k + 1;
                }
                assert(c.frontier_leaf_ids@.subrange(0, k as int) =~= c.frontier_leaf_ids@);
                i = i + 1;
            }
            assert(children@.subrange(0, children@.len() as int) =~= children@);
        }
        let distance: usize = if is_frontier {
            0
        } else if children.len() == 0 {
            fallback_distance
        } else {
            let mut best: usize = usize::MAX;
            let mut i: usize = 0;
            while i < children.len()
                invariant
                    i <= children@.len(),
                    best as int == min_next_distance(children@.subrange(0, i as int)),
                decreases children@.len() - i,
            {
                proof {
                    assert(children@.subrange(0, i + 1).drop_last() =~= children@.subrange(0, i as int));
                    assert(children@.subrange(0, i + 1).last() == children@[i as int]);
                }
                let bd = children[i].blocker_distance;
                let d = if bd == usize::MAX { usize::MAX } else { bd + 1 };
                if d < best {
                    best = d;
                }
                i = i + 1;
            }
            assert(children@.subrange(0, children@.len() as int) =~= children@);
            best
        };
        let ti = self.ticket_index(ticket_id).unwrap();
        let x = self.metrics(&ticket_id).unwrap();
        let count = leaves.len();
        WorkflowTreeNode {
            ticket_id,
            title: clone_opt_string(&self.tickets[ti].title),
            state: clone_opt_string(&self.tickets[ti].state),
            priority: self.priority_or_none(&ticket_id).to_owned(),
            children,
            remaining_blocker_count,
            unresolved_frontier_leaf_count: count,
            frontier_leaf_ids: leaves,
            blocker_distance: distance,
            is_frontier,
            dependency_count: x.dependency_count,
            immediate_dependees: x.immediate_dependees,
            transitive_reverse_dependents: x.transitive_reverse_dependents,
            affected_reverse_dependent_reach: x.affected_reverse_dependent_reach,
            dependency_state_gap: x.dependency_state_gap,
        }
    }

    fn build_blocker_tree_node(&self, ticket_id: u128, path: &mut Vec<u128>) -> (r: Option<WorkflowTreeNode>)
        requires
            self.wf(),
            old(path)@.no_duplicates(),
            forall|k: int| 0 <= k < old(path)@.len() ==> self@.known(#[trigger] old(path)@[k]),
        ensures
            final(path)@ == old(path)@,
            r is Some <==> self@.known(ticket_id),
            r matches Some(n) ==> n.ticket_id == ticket_id && self.blocker_node_ok(n, old(path)@),
        decreases self.tickets@.len() - old(path)@.len(),
    {
        if self.ticket_index(ticket_id).is_none() {
            return None;
        }
        let ghost p0 = path@;
        proof {
            lemma_path_bound(self@.tickets, p0);
            assert(self@.tickets.len() == self.tickets@.len());
        }
        if contains_id(path, ticket_id) {
            let n = self.finalize_tree_node(ticket_id, 0, false, Vec::new(), 1);
            proof {
                n.children@.to_multiset_ensures();
                Seq::<WorkflowTreeNode>::empty().to_multiset_ensures();
                assert(n.children@.len() == 0);
            }
            return Some(n);
        }
        path.push(ticket_id);
        proof {
            let np = path@;
            assert(np == p0.push(ticket_id));
            assert forall|a: int, b: int| 0 <= a < b < np.len() implies np[a] != np[b] by {
                if b == np.len() - 1 {
                    assert(np[a] == p0[a]);
                }
            }
            assert forall|k: int| 0 <= k < np.len() implies self@.known(#[trigger] np[k]) by {
                if k < p0.len() {
                    assert(np[k] == p0[k]);
                }
            }
            lemma_path_bound(self@.tickets, np);
        }
        let child_ids = self.unresolved_dependencies_excluding(&ticket_id, &Vec::new());
        proof { lemma_without_empty(self@.unresolved(ticket_id)); }
        let remaining = child_ids.len();
        let mut children: Vec<WorkflowTreeNode> = Vec::new();
        let mut i: usize = 0;
        while i < child_ids.len()
            invariant
                self.wf(),
                p0 == old(path)@,
                path@ == p0.push(ticket_id),
                path@.no_duplicates(),
                forall|k: int| 0 <= k < path@.len() ==> self@.known(#[trigger] path@[k]),
                path@.len() <= self.tickets@.len(),
                child_ids@ == self@.unresolved(ticket_id),
                i <= child_ids@.len(),
                children@.len() == i,
                forall|q: int| 0 <= q < i ==> (#[trigger] children@[q]).ticket_id == child_ids@[q]
                    && self.blocker_node_ok(children@[q], p0.push(ticket_id)),
            decreases child_ids@.len() - i,
        {
            proof {
                self.lemma_unresolved_known(ticket_id, i as int);
                assert(self.tickets@.len() - path@.len() >= 0);
                assert(self.tickets@.len() - path@.len() < self.tickets@.len() - p0.len());
            }
            match self.build_blocker_tree_node(child_ids[i], path) {
                Some(n) => {
                    children.push(n);
                },
                None => {},
            }
            i = i + 1;
        }
        path.pop();
        proof {
            assert(path@ =~= p0);
            assert(children@.map_values(|c: WorkflowTreeNode| c.ticket_id) =~= child_ids@);
        }
        let fallback = if remaining == 0 { 1 } else { remaining };
        let ghost unsorted = children@;
        let n = self.finalize_tree_node(ticket_id, remaining, remaining == 0, children, fallback);
        proof {
            lemma_multiset_map(n.children@, unsorted, |c: WorkflowTreeNode| c.ticket_id);
            assert forall|q: int| 0 <= q < n.children@.len() implies self.blocker_node_ok(#[trigger] n.children@[q], p0.push(ticket_id)) by {
                lemma_perm_members(n.children@, unsorted, q);
            }
            assert(!p0.contains(ticket_id));
        }
        Some(n)
    }

    proof fn lemma_unresolved_known(&self, id: u128, i: int)
        requires
            self.wf(),
            0 <= i < self@.unresolved(id).len(),
        ensures
            self@.known(self@.unresolved(id)[i]),
    {
        assert forall|k: int| 0 <= k < self@.deps.len() implies self@.known(#[trigger] self@.deps[k].1) by {
            assert(self@.known(self.deps@[k].0));
        }
        self.lemma_unresolved_in_known(self@.deps, id);
    }

    proof fn lemma_unresolved_in_known(&self, deps: Seq<(u128, u128)>, id: u128)
        requires
            self.wf(),
            forall|k: int| 0 <= k < deps.len() ==> self@.known(#[trigger] deps[k].1),
        ensures
            forall|i: int| 0 <= i < unresolved_in(self@, deps, id).len() ==> self@.known(#[trigger] unresolved_in(self@, deps, id)[i]),
        decreases deps.len(),
    {
        if deps.len() > 0 {
            let pre = deps.drop_last();
            assert forall|k: int| 0 <= k < pre.len() implies self@.known(#[trigger] pre[k].1) by {
                assert(pre[k] == deps[k]);
            }
            self.lemma_unresolved_in_known(pre, id);
            assert(deps[deps.len() - 1] == deps.last());
            let u = unresolved_in(self@, deps, id);
            let rest = unresolved_in(self@, pre, id);
            assert forall|i: int| 0 <= i < u.len() implies self@.known(#[trigger] u[i]) by {
                if i < rest.len() {
                    assert(u[i] == rest[i]);
                }
            }
        }
    }

    /// The upstream blocker tree of a ticket over unresolved prerequisites.
    pub fn blocker_tree(&self, root_id: u128) -> (r: Option<WorkflowTreeNode>)
        requires
            self.wf(),
        ensures
            r is Some <==> self@.known(root_id),
            r matches Some(n) ==> n.ticket_id == root_id && self.blocker_node_ok(n, Seq::empty()),
    {
        let mut path: Vec<u128> = Vec::new();
        self.build_blocker_tree_node(root_id, &mut path)
    }

    /// The frontier leaves of a ticket's blocker tree (empty when unknown).
    pub fn blocker_frontier_leaf_ids(&self, root_id: u128) -> (r: Vec<u128>)
        requires
            self.wf(),
        ensures
            !self@.known(root_id) ==> r@.len() == 0,
            self@.known(root_id) ==> exists|n: WorkflowTreeNode| n.ticket_id == root_id
                && self.blocker_node_ok(n, Seq::empty()) && r@ == n.frontier_leaf_ids@,
            forall|n: WorkflowTreeNode| n.ticket_id == root_id && #[trigger] self.blocker_node_ok(n, Seq::empty())
                ==> r@ == n.frontier_leaf_ids@,
    {
        match self.blocker_tree(root_id) {
            Some(t) => {
                proof {
                    assert forall|n: WorkflowTreeNode| n.ticket_id == root_id && #[trigger] self.blocker_node_ok(n, Seq::empty())
                        implies t.frontier_leaf_ids@ == n.frontier_leaf_ids@ by {
                        self.lemma_blocker_frontier_determined(t, n);
                    }
                }
                t.frontier_leaf_ids
            },
            None => Vec::new(),
        }
    }

    fn candidate_dependents_of(&self, ticket_id: u128) -> (r: Vec<u128>)
        requires
            self.wf(),
        ensures
            r@ == candidate_dependents(self@, dependents_in(self@.deps, ticket_id)),
    {
        let ds = self.dependents_of(ticket_id);
        let mut out: Vec<u128> = Vec::new();
        let mut i: usize = 0;
        while i < ds.len()
            invariant
                self.wf(),
                i <= ds@.len(),
                out@ == candidate_dependents(self@, ds@.subrange(0, i as int)),
            decreases ds@.len() - i,
        {
            proof {
                assert(ds@.subrange(0, i + 1).drop_last() =~= ds@.subrange(0, i as int));
                assert(ds@.subrange(0, i + 1).last() == ds@[i as int]);
            }
            if is_candidate_state(self.state_str(ds[i])) {
                out.push(ds[i]);
            }
            i = i + 1;
        }
        assert(ds@.subrange(0, ds@.len() as int) =~= ds@);
        out
    }

    proof fn lemma_candidate_dependents_known(&self, id: u128, i: int)
        requires
            self.wf(),
            0 <= i < candidate_dependents(self@, dependents_in(self@.deps, id)).len(),
        ensures
            self@.known(candidate_dependents(self@, dependents_in(self@.deps, id))[i]),
    {
        let ds = dependents_in(self@.deps, id);
        self.lemma_candidate_dependents_sub(ds);
        let x = candidate_dependents(self@, ds)[i];
        assert(ds.contains(x));
        lemma_dependents_in(self@.deps, id);
        assert(is_dep(self@.deps, x, id));
        let j = choose|j: int| 0 <= j < self@.deps.len() && self@.deps[j] == (x, id);
        assert(self@.known(self.deps@[j].0));
    }

    proof fn lemma_candidate_dependents_sub(&self, ds: Seq<u128>)
        ensures
            forall|i: int| 0 <= i < candidate_dependents(self@, ds).len() ==> ds.contains(#[trigger] candidate_dependents(self@, ds)[i]),
        decreases ds.len(),
    {
        if ds.len() > 0 {
            let pre = ds.drop_last();
            self.lemma_candidate_dependents_sub(pre);
            let c = candidate_dependents(self@, ds);
            let rest = candidate_dependents(self@, pre);
            assert forall|i: int| 0 <= i < c.len() implies ds.contains(#[trigger] c[i]) by {
                if i < rest.len() {
                    assert(c[i] == rest[i]);
                    let j = choose|j: int| 0 <= j < pre.len() && pre[j] == rest[i];
                    assert(ds[j] == pre[j]);
                } else {
                    assert(c[i] == ds[ds.len() - 1]);
                }
            }
        }
    }

    fn build_unlock_tree_node(&self, ticket_id: u128, satisfied_ids: &Vec<u128>, allow_frontier: bool, path: &mut Vec<u128>)
        -> (r: Option<WorkflowTreeNode>)
        requires
            self.wf(),
            old(path)@.no_duplicates(),
            forall|k: int| 0 <= k < old(path)@.len() ==> self@.known(#[trigger] old(path)@[k]),
        ensures
            final(path)@ == old(path)@,
            r is Some <==> self@.known(ticket_id),
            r matches Some(n) ==> n.ticket_id == ticket_id && self.unlock_node_ok(n, satisfied_ids@, allow_frontier, old(path)@),
        decreases self.tickets@.len() - old(path)@.len(),
    {
        let st = match self.ticket_index(ticket_id) {
            None => { return None; },
            Some(i) => match &self.tickets[i].state {
                Some(x) => Some(x.as_str()),
                None => None,
            },
        };
        let ghost p0 = path@;
        proof {
            lemma_path_bound(self@.tickets, p0);
        }
        if contains_id(path, ticket_id) {
            let n = self.finalize_tree_node(ticket_id, 0, false, Vec::new(), 1);
            proof {
                n.children@.to_multiset_ensures();
                Seq::<WorkflowTreeNode>::empty().to_multiset_ensures();
                assert(n.children@.len() == 0);
            }
            return Some(n);
        }
        path.push(ticket_id);
        proof {
            let np = path@;
            assert(np == p0.push(ticket_id));
            assert forall|a: int, b: int| 0 <= a < b < np.len() implies np[a] != np[b] by {
                if b == np.len() - 1 {
                    assert(np[a] == p0[a]);
                }
            }
            assert forall|k: int| 0 <= k < np.len() implies self@.known(#[trigger] np[k]) by {
                if k < p0.len() {
                    assert(np[k] == p0[k]);
                }
            }
            lemma_path_bound(self@.tickets, np);
        }
        let child_ids = self.candidate_dependents_of(ticket_id);
        let remaining = self.unresolved_dependencies_excluding(&ticket_id, satisfied_ids).len();
        let is_frontier = allow_frontier && remaining == 0 && is_candidate_state(st);
        let mut children: Vec<WorkflowTreeNode> = Vec::new();
        let mut i: usize = 0;
        while i < child_ids.len()
            invariant
                self.wf(),
                p0 == old(path)@,
                path@ == p0.push(ticket_id),
                path@.no_duplicates(),
                forall|k: int| 0 <= k < path@.len() ==> self@.known(#[trigger] path@[k]),
                path@.len() <= self.tickets@.len(),
                child_ids@ == candidate_dependents(self@, dependents_in(self@.deps, ticket_id)),
                i <= child_ids@.len(),
                children@.len() == i,
                forall|q: int| 0 <= q < i ==> (#[trigger] children@[q]).ticket_id == child_ids@[q]
                    && self.unlock_node_ok(children@[q], satisfied_ids@, true, p0.push(ticket_id)),
            decreases child_ids@.len() - i,
        {
            proof {
                self.lemma_candidate_dependents_known(ticket_id, i as int);
                assert(self.tickets@.len() - path@.len() >= 0);
            }
            match self.build_unlock_tree_node(child_ids[i], satisfied_ids, true, path) {
                Some(n) => {
                    children.push(n);
                },
                None => {},
            }
            i = i + 1;
        }
        path.pop();
        proof {
            assert(path@ =~= p0);
            assert(children@.map_values(|c: WorkflowTreeNode| c.ticket_id) =~= child_ids@);
        }
        let fallback = if remaining == 0 { 1 } else { remaining };
        let ghost unsorted = children@;
        let n = self.finalize_tree_node(ticket_id, remaining, is_frontier, children, fallback);
        proof {
            lemma_multiset_map(n.children@, unsorted, |c: WorkflowTreeNode| c.ticket_id);
            assert forall|q: int| 0 <= q < n.children@.len() implies self.unlock_node_ok(#[trigger] n.children@[q], satisfied_ids@, true, p0.push(ticket_id)) by {
                lemma_perm_members(n.children@, unsorted, q);
            }
            assert(!p0.contains(ticket_id));
        }
        Some(n)
    }

    /// The downstream unlock tree of a ticket with `satisfied_ids` counted
    /// as done; the root itself is never a frontier.
    pub fn unlock_tree_with_satisfied(&self, root_id: u128, satisfied_ids: &Vec<u128>) -> (r: Option<WorkflowTreeNode>)
        requires
            self.wf(),
        ensures
            r is Some <==> self@.known(root_id),
            r matches Some(n) ==> n.ticket_id == root_id && self.unlock_node_ok(n, satisfied_ids@, false, Seq::empty()),
    {
        let mut path: Vec<u128> = Vec::new();
        self.build_unlock_tree_node(root_id, satisfied_ids, false, &mut path)
    }

    /// The frontier leaves of an unlock tree (empty when the root is unknown).
    pub fn unlock_frontier_leaf_ids_with_satisfied(&self, root_id: u128, satisfied_ids: &Vec<u128>) -> (r: Vec<u128>)
        requires
            self.wf(),
        ensures
            !self@.known(root_id) ==> r@.len() == 0,
            self@.known(root_id) ==> exists|n: WorkflowTreeNode| n.ticket_id == root_id
                && self.unlock_node_ok(n, satisfied_ids@, false, Seq::empty()) && r@ == n.frontier_leaf_ids@,
            forall|n: WorkflowTreeNode| n.ticket_id == root_id && #[trigger] self.unlock_node_ok(n, satisfied_ids@, false, Seq::empty())
                ==> r@ == n.frontier_leaf_ids@,
    {
        match self.unlock_tree_with_satisfied(root_id, satisfied_ids) {
            Some(t) => {
                proof {
                    assert forall|n: WorkflowTreeNode| n.ticket_id == root_id && #[trigger] self.unlock_node_ok(n, satisfied_ids@, false, Seq::empty())
                        implies t.frontier_leaf_ids@ == n.frontier_leaf_ids@ by {
                        self.lemma_unlock_frontier_determined(t, n, satisfied_ids@);
                    }
                }
                t.frontier_leaf_ids
            },
            None => Vec::new(),
        }
    }

    /// The unlock tree of a ticket, counting the ticket itself as done.
    pub fn unlock_tree(&self, root_id: u128) -> (r: Option<WorkflowTreeNode>)
        requires
            self.wf(),
        ensures
            r is Some <==> self@.known(root_id),
            r matches Some(n) ==> n.ticket_id == root_id && self.unlock_node_ok(n, seq![root_id], false, Seq::empty()),
    {
        let mut satisfied: Vec<u128> = Vec::new();
        satisfied.push(root_id);
        assert(satisfied@ =~= seq![root_id]);
        self.unlock_tree_with_satisfied(root_id, &satisfied)
    }

    /// The frontier leaves of a ticket's unlock tree.
    pub fn unlock_frontier_leaf_ids(&self, root_id: u128) -> (r: Vec<u128>)
        requires
            self.wf(),
        ensures
            !self@.known(root_id) ==> r@.len() == 0,
            self@.known(root_id) ==> exists|n: WorkflowTreeNode| n.ticket_id == root_id
                && self.unlock_node_ok(n, seq![root_id], false, Seq::empty()) && r@ == n.frontier_leaf_ids@,
            forall|n: WorkflowTreeNode| n.ticket_id == root_id && #[trigger] self.unlock_node_ok(n, seq![root_id], false, Seq::empty())
                ==> r@ == n.frontier_leaf_ids@,
    {
        let mut satisfied: Vec<u128> = Vec::new();
        satisfied.push(root_id);
        assert(satisfied@ =~= seq![root_id]);
        self.unlock_frontier_leaf_ids_with_satisfied(root_id, &satisfied)
    }

    /// The blocker tree of a root ticket together with every blocker below
    /// the root, how many there are, and how many of them are blocked
    /// themselves; `None` when the root is unknown.
    pub fn root_blocker_scope(&self, root_id: u128) -> (r: Option<RootBlockerScope>)
        requires
            self.wf(),
        ensures
            r is Some <==> self@.known(root_id),
            r matches Some(sc) ==> {
                &&& sc.tree.ticket_id == root_id
                &&& self.blocker_node_ok(sc.tree, Seq::empty())
                &&& sc.remaining_blockers@.no_duplicates()
                &&& sc.remaining_blockers@.to_set() == forest_ids(sc.tree.children@)
                &&& sc.reachable_dependencies == sc.remaining_blockers@.len()
                &&& sc.blocked_dependencies == count_blocked(self@, sc.remaining_blockers@)
            },
    {
        let tree = match self.blocker_tree(root_id) {
            Some(t) => t,
            None => { return None; },
        };
        let mut ids: Vec<u128> = Vec::new();
        let mut i: usize = 0;
        while i < tree.children.len()
            invariant
                ids@.no_duplicates(),
                i <= tree.children@.len(),
                ids@.to_set() == forest_ids(tree.children@.subrange(0, i as int)),
            decreases tree.children@.len() - i,
        {
            proof {
                assert(tree.children@.subrange(0, i + 1).drop_last() =~= tree.children@.subrange(0, i as int));
                assert(tree.children@.subrange(0, i + 1).last() == tree.children@[i as int]);
            }
            collect_tree_node_ids(&tree.children[i], &mut ids);
            proof {
                assert(ids@.to_set() =~= forest_ids(tree.children@.subrange(0, i + 1)));
            }
            i = i + 1;
        }
        proof {
            assert(tree.children@.subrange(0, tree.children@.len() as int) =~= tree.children@);
            assert(ids@.to_set() =~= forest_ids(tree.children@));
        }
        let mut blocked: usize = 0;
        let mut j: usize = 0;
        while j < ids.len()
            invariant
                self.wf(),
                j <= ids@.len(),
                blocked == count_blocked(self@, ids@.subrange(0, j as int)),
                blocked <= j,
            decreases ids@.len() - j,
        {
            proof {
                assert(ids@.subrange(0, j + 1).drop_last() =~= ids@.subrange(0, j as int));
                assert(ids@.subrange(0, j + 1).last() == ids@[j as int]);
            }
            let u = self.unresolved_dependencies_excluding(&ids[j], &Vec::new());
            proof { lemma_without_empty(self@.unresolved(ids@[j as int])); }
            if u.len() > 0 {
                blocked = blocked + 1;
            }
            j = j + 1;
        }
        assert(ids@.subrange(0, ids@.len() as int) =~= ids@);
        let reachable = ids.len();
        Some(RootBlockerScope {
            tree,
            remaining_blockers: ids,
            reachable_dependencies: reachable,
            blocked_dependencies: blocked,
        })
    }

    /// The unresolved prerequisites, minus `satisfied_ids`, of any of the
    /// given dependents, each listed once.
    pub fn remaining_blockers_for_dependents_with_satisfied(&self, dependent_ids: &Vec<u128>, satisfied_ids: &Vec<u128>) -> (r: Vec<u128>)
        requires
            self.wf(),
        ensures
            r@.no_duplicates(),
            r@.to_set() == Set::new(|d: u128| exists|k: int| 0 <= k < dependent_ids@.len()
                && #[trigger] without(self@.unresolved(dependent_ids@[k]), satisfied_ids@).contains(d)),
    {
        let mut out: Vec<u128> = Vec::new();
        let mut i: usize = 0;
        while i < dependent_ids.len()
            invariant
                self.wf(),
                i <= dependent_ids@.len(),
                out@.no_duplicates(),
                out@.to_set() == Set::new(|d: u128| exists|k: int| 0 <= k < i
                    && #[trigger] without(self@.unresolved(dependent_ids@[k]), satisfied_ids@).contains(d)),
            decreases dependent_ids@.len() - i,
        {
            let u = self.unresolved_dependencies_excluding(&dependent_ids[i], satisfied_ids);
            let ghost before = out@.to_set();
            let mut j: usize = 0;
            while j < u.len()
                invariant
                    j <= u@.len(),
                    out@.no_duplicates(),
                    out@.to_set() == before.union(u@.subrange(0, j as int).to_set()),
                decreases u@.len() - j,
            {
                push_unique(&mut out, u[j]);
                proof {
                    assert(u@.subrange(0, j + 1) =~= u@.subrange(0, j as int).push(u@[j as int]));
                    Seq::<u128>::lemma_to_set_insert_commutes(u@.subrange(0, j as int), u@[j as int]);
                    assert(u@.subrange(0, j + 1) =~= u@.subrange(0, j as int) + seq![u@[j as int]]);
                    assert(u@.subrange(0, j + 1).to_set() =~= u@.subrange(0, j as int).to_set().insert(u@[j as int]));
                    assert(out@.to_set() =~= before.union(u@.subrange(0, j + 1).to_set()));
                }
                j = j + 1;
            }
            proof {
                assert(u@.subrange(0, u@.len() as int) =~= u@);
                assert forall|d: u128| out@.to_set().contains(d) <==> (exists|k: int| 0 <= k < i + 1
                    && #[trigger] without(self@.unresolved(dependent_ids@[k]), satisfied_ids@).contains(d)) by {
                    if u@.to_set().contains(d) {
                        assert(without(self@.unresolved(dependent_ids@[i as int]), satisfied_ids@).contains(d));
                    }
                    if exists|k: int| 0 <= k < i + 1 && #[trigger] without(self@.unresolved(dependent_ids@[k]), satisfied_ids@).contains(d) {
                        let k = choose|k: int| 0 <= k < i + 1 && #[trigger] without(self@.unresolved(dependent_ids@[k]), satisfied_ids@).contains(d);
                        if k == i {
                            assert(u@.to_set().contains(d));
                        } else {
                            assert(before.contains(d));
                        }
                    }
                }
                assert(out@.to_set() =~= Set::new(|d: u128| exists|k: int| 0 <= k < i + 1
                    && #[trigger] without(self@.unresolved(dependent_ids@[k]), satisfied_ids@).contains(d)));
            }
            i = i + 1;
        }
        out
    }

    /// The unresolved prerequisites of any of the given dependents.
    pub fn remaining_blockers_for_dependents(&self, dependent_ids: &Vec<u128>) -> (r: Vec<u128>)
        requires
            self.wf(),
        ensures
            r@.no_duplicates(),
            r@.to_set() == Set::new(|d: u128| exists|k: int| 0 <= k < dependent_ids@.len()
                && #[trigger] without(self@.unresolved(dependent_ids@[k]), Seq::empty()).contains(d)),
    {
        let none: Vec<u128> = Vec::new();
        assert(none@ =~= Seq::<u128>::empty());
        self.remaining_blockers_for_dependents_with_satisfied(dependent_ids, &none)
    }

    /// The schema position of a state, when listed.
    pub fn state_position(&self, state: Option<&str>) -> (r: Option<usize>)
        ensures
            r == self@.state_position(opt_str_view(state)),
    {
        match state {
            None => None,
            Some(s) => {
                let ghost sv = self@.state_index;
                let mut i = self.state_index.len();
                assert(sv.subrange(0, i as int) =~= sv);
        assert(sv.subrange(0, i as int) =~= sv);
                while i > 0
                    invariant
                        sv == state_index_view(self.state_index@),
                        sv == self@.state_index,
                        opt_str_view(state) == Some(s@),
                        i <= self.state_index@.len(),
                        assoc(sv, s@) == assoc(sv.subrange(0, i as int), s@),
                    decreases i,
                {
                    i = i - 1;
                    assert(sv.subrange(0, i + 1).drop_last() =~= sv.subrange(0, i as int));
                    if str_eq(self.state_index[i].0.as_str(), s) {
                        assert(sv[i as int] == (self.state_index@[i as int].0@, self.state_index@[i as int].1));
                        assert(sv.subrange(0, i + 1).last() == sv[i as int]);
                        return Some(self.state_index[i].1);
                    }
                }
                None
            },
        }
    }

    /// The schema position of a state, 0 when the state is unknown or absent.
    pub fn state_rank(&self, state: Option<&str>) -> (r: usize)
        ensures
            r == self@.state_rank(opt_str_view(state)),
    {
        match self.state_position(state) {
            Some(k) => k,
            None => 0,
        }
    }
}

/// Two tree keys that compare equal belong to the same ticket.
proof fn lemma_tree_key_zero(a: TreeKey, b: TreeKey)
    requires
        tree_key_order(a, b) == 0,
    ensures
        a.id == b.id,
{
}

/// Nodes with pointwise equal frontiers have the same concatenated frontier.
proof fn lemma_frontier_concat_eq(c1: Seq<WorkflowTreeNode>, c2: Seq<WorkflowTreeNode>)
    requires
        c1.len() == c2.len(),
        forall|i: int| 0 <= i < c1.len() ==> #[trigger] c1[i].frontier_leaf_ids@ == c2[i].frontier_leaf_ids@,
    ensures
        frontier_concat(c1) == frontier_concat(c2),
    decreases c1.len(),
{
    if c1.len() > 0 {
        assert forall|i: int| 0 <= i < c1.drop_last().len() implies #[trigger] c1.drop_last()[i].frontier_leaf_ids@ == c2.drop_last()[i].frontier_leaf_ids@ by {
            assert(c1.drop_last()[i] == c1[i] && c2.drop_last()[i] == c2[i]);
        }
        lemma_frontier_concat_eq(c1.drop_last(), c2.drop_last());
        assert(c1.last().frontier_leaf_ids@ == c2.last().frontier_leaf_ids@);
    }
}

/// Nodes with pointwise equal distances have the same next distance.
proof fn lemma_min_next_distance_eq(c1: Seq<WorkflowTreeNode>, c2: Seq<WorkflowTreeNode>)
    requires
        c1.len() == c2.len(),
        forall|i: int| 0 <= i < c1.len() ==> #[trigger] c1[i].blocker_distance == c2[i].blocker_distance,
    ensures
        min_next_distance(c1) == min_next_distance(c2),
    decreases c1.len(),
{
    if c1.len() > 0 {
        assert forall|i: int| 0 <= i < c1.drop_last().len() implies #[trigger] c1.drop_last()[i].blocker_distance == c2.drop_last()[i].blocker_distance by {
            assert(c1.drop_last()[i] == c1[i] && c2.drop_last()[i] == c2[i]);
        }
        lemma_min_next_distance_eq(c1.drop_last(), c2.drop_last());
        assert(c1.last().blocker_distance == c2.last().blocker_distance);
    }
}

impl WorkflowModel {
    /// Sorted siblings over the same tickets come in the same ticket order,
    /// when nodes of the same ticket carry the same key.
    proof fn lemma_sorted_same_ids(&self, c1: Seq<WorkflowTreeNode>, c2: Seq<WorkflowTreeNode>)
        requires
            c1.map_values(|c: WorkflowTreeNode| c.ticket_id).to_multiset() == c2.map_values(|c: WorkflowTreeNode| c.ticket_id).to_multiset(),
            self.nodes_sorted(c1),
            self.nodes_sorted(c2),
            forall|i: int, j: int| 0 <= i < c1.len() && 0 <= j < c2.len() && #[trigger] c1[i].ticket_id == #[trigger] c2[j].ticket_id
                ==> self.tree_key(c1[i]) == self.tree_key(c2[j]),
        ensures
            c1.map_values(|c: WorkflowTreeNode| c.ticket_id) == c2.map_values(|c: WorkflowTreeNode| c.ticket_id),
        decreases c1.len(),
    {
        let m1 = c1.map_values(|c: WorkflowTreeNode| c.ticket_id);
        let m2 = c2.map_values(|c: WorkflowTreeNode| c.ticket_id);
        broadcast use vstd::multiset::group_multiset_axioms;
        m1.to_multiset_ensures();
        m2.to_multiset_ensures();
        if c1.len() == 0 {
            assert(m2.len() == 0);
            assert(m1 =~= m2);
        } else {
            assert(c2.len() > 0);
            let x = c1[0].ticket_id;
            let y = c2[0].ticket_id;
            assert(m1[0] == x);
            assert(m1.contains(x));
            assert(m1.to_multiset().count(x) > 0);
            assert(m2.to_multiset().count(x) > 0);
            assert(m2.contains(x));
            let j = choose|j: int| 0 <= j < m2.len() && m2[j] == x;
            assert(c2[j].ticket_id == x);
            assert(m2[0] == y);
            assert(m2.contains(y));
            assert(m2.to_multiset().count(y) > 0);
            assert(m1.to_multiset().count(y) > 0);
            assert(m1.contains(y));
            let i = choose|i: int| 0 <= i < m1.len() && m1[i] == y;
            assert(c1[i].ticket_id == y);
            assert(self.tree_key(c1[0]) == self.tree_key(c2[j]));
            assert(self.tree_key(c1[i]) == self.tree_key(c2[0]));
            if j > 0 {
                assert(tree_key_order(self.tree_key(c2[0]), self.tree_key(c2[j])) <= 0);
            }
            if i > 0 {
                assert(tree_key_order(self.tree_key(c1[0]), self.tree_key(c1[i])) <= 0);
            }
            lemma_tree_key_order(self.tree_key(c1[0]), self.tree_key(c2[0]));
            lemma_tree_key_zero(self.tree_key(c1[0]), self.tree_key(c2[0]));
            assert(x == y);
            let d1 = c1.drop_first();
            let d2 = c2.drop_first();
            assert(d1.map_values(|c: WorkflowTreeNode| c.ticket_id) =~= m1.remove(0));
            assert(d2.map_values(|c: WorkflowTreeNode| c.ticket_id) =~= m2.remove(0));
            vstd::seq_lib::to_multiset_remove(m1, 0);
            vstd::seq_lib::to_multiset_remove(m2, 0);
            assert forall|a: int, b: int| 0 <= a < d1.len() && 0 <= b < d1.len() && a < b
                implies tree_key_order(self.tree_key(d1[a]), self.tree_key(d1[b])) <= 0 by {
                assert(d1[a] == c1[a + 1] && d1[b] == c1[b + 1]);
            }
            assert forall|a: int, b: int| 0 <= a < d2.len() && 0 <= b < d2.len() && a < b
                implies tree_key_order(self.tree_key(d2[a]), self.tree_key(d2[b])) <= 0 by {
                assert(d2[a] == c2[a + 1] && d2[b] == c2[b + 1]);
            }
            assert forall|a: int, b: int| 0 <= a < d1.len() && 0 <= b < d2.len() && #[trigger] d1[a].ticket_id == #[trigger] d2[b].ticket_id
                implies self.tree_key(d1[a]) == self.tree_key(d2[b]) by {
                assert(d1[a] == c1[a + 1] && d2[b] == c2[b + 1]);
            }
            self.lemma_sorted_same_ids(d1, d2);
            let r1 = m1.remove(0);
            let r2 = m2.remove(0);
            assert(r1 == r2);
            assert(m1.len() == r1.len() + 1 && m2.len() == r2.len() + 1);
            assert forall|k: int| 0 <= k < m1.len() implies m1[k] == m2[k] by {
                if k > 0 {
                    assert(m1[k] == r1[k - 1]);
                    assert(m2[k] == r2[k - 1]);
                }
            }
            assert(m1 =~= m2);
        }
    }

    /// Two unlock trees of the same ticket, both meeting the unlock-tree
    /// contract along the same path with the same satisfied tickets, agree on
    /// their frontier, their distance and their sibling key.
    proof fn lemma_unlock_nodes_agree(&self, n1: WorkflowTreeNode, n2: WorkflowTreeNode, satisfied: Seq<u128>, allow_frontier: bool, path: Seq<u128>)
        requires
            self.unlock_node_ok(n1, satisfied, allow_frontier, path),
            self.unlock_node_ok(n2, satisfied, allow_frontier, path),
            n1.ticket_id == n2.ticket_id,
        ensures
            n1.frontier_leaf_ids@ == n2.frontier_leaf_ids@,
            n1.blocker_distance == n2.blocker_distance,
            self.tree_key(n1) == self.tree_key(n2),
        decreases n1,
    {
        let id = n1.ticket_id;
        if !path.contains(id) {
            let c1 = n1.children@;
            let c2 = n2.children@;
            assert forall|i: int, j: int| 0 <= i < c1.len() && 0 <= j < c2.len() && #[trigger] c1[i].ticket_id == #[trigger] c2[j].ticket_id
                implies self.tree_key(c1[i]) == self.tree_key(c2[j]) && c1[i].frontier_leaf_ids@ == c2[j].frontier_leaf_ids@
                    && c1[i].blocker_distance == c2[j].blocker_distance by {
                assert(self.unlock_node_ok(c1[i], satisfied, true, path.push(id)));
                assert(self.unlock_node_ok(c2[j], satisfied, true, path.push(id)));
                self.lemma_unlock_nodes_agree(c1[i], c2[j], satisfied, true, path.push(id));
            }
            self.lemma_sorted_same_ids(c1, c2);
            let m1 = c1.map_values(|c: WorkflowTreeNode| c.ticket_id);
            let m2 = c2.map_values(|c: WorkflowTreeNode| c.ticket_id);
            assert(m1.len() == m2.len());
            assert forall|i: int| 0 <= i < c1.len() implies #[trigger] c1[i].frontier_leaf_ids@ == c2[i].frontier_leaf_ids@ by {
                assert(m1[i] == m2[i]);
            }
            assert forall|i: int| 0 <= i < c1.len() implies #[trigger] c1[i].blocker_distance == c2[i].blocker_distance by {
                assert(m1[i] == m2[i]);
            }
            lemma_frontier_concat_eq(c1, c2);
            lemma_min_next_distance_eq(c1, c2);
        }
    }

    /// Two blocker trees of the same ticket, both meeting the blocker-tree
    /// contract along the same path, agree on their frontier, their distance
    /// and their sibling key.
    proof fn lemma_blocker_nodes_agree(&self, n1: WorkflowTreeNode, n2: WorkflowTreeNode, path: Seq<u128>)
        requires
            self.blocker_node_ok(n1, path),
            self.blocker_node_ok(n2, path),
            n1.ticket_id == n2.ticket_id,
        ensures
            n1.frontier_leaf_ids@ == n2.frontier_leaf_ids@,
            n1.blocker_distance == n2.blocker_distance,
            self.tree_key(n1) == self.tree_key(n2),
        decreases n1,
    {
        let id = n1.ticket_id;
        if !path.contains(id) {
            let c1 = n1.children@;
            let c2 = n2.children@;
            assert forall|i: int, j: int| 0 <= i < c1.len() && 0 <= j < c2.len() && #[trigger] c1[i].ticket_id == #[trigger] c2[j].ticket_id
                implies self.tree_key(c1[i]) == self.tree_key(c2[j]) && c1[i].frontier_leaf_ids@ == c2[j].frontier_leaf_ids@
                    && c1[i].blocker_distance == c2[j].blocker_distance by {
                assert(self.blocker_node_ok(c1[i], path.push(id)));
                assert(self.blocker_node_ok(c2[j], path.push(id)));
                self.lemma_blocker_nodes_agree(c1[i], c2[j], path.push(id));
            }
            self.lemma_sorted_same_ids(c1, c2);
            let m1 = c1.map_values(|c: WorkflowTreeNode| c.ticket_id);
            let m2 = c2.map_values(|c: WorkflowTreeNode| c.ticket_id);
            assert(m1.len() == m2.len());
            assert forall|i: int| 0 <= i < c1.len() implies #[trigger] c1[i].frontier_leaf_ids@ == c2[i].frontier_leaf_ids@ by {
                assert(m1[i] == m2[i]);
            }
            assert forall|i: int| 0 <= i < c1.len() implies #[trigger] c1[i].blocker_distance == c2[i].blocker_distance by {
                assert(m1[i] == m2[i]);
            }
            lemma_frontier_concat_eq(c1, c2);
            lemma_min_next_distance_eq(c1, c2);
        }
    }

    /// The frontier of a root's unlock tree is determined by the root and
    /// the tickets counted as done: every tree that meets the unlock-tree
    /// contract lists the same frontier leaves, so the frontier that
    /// `unlock_frontier_leaf_ids_with_satisfied` reports is the frontier of
    /// the tree that `unlock_tree_with_satisfied` builds.
    pub proof fn lemma_unlock_frontier_determined(&self, n1: WorkflowTreeNode, n2: WorkflowTreeNode, satisfied: Seq<u128>)
        requires
            n1.ticket_id == n2.ticket_id,
            self.unlock_node_ok(n1, satisfied, false, Seq::empty()),
            self.unlock_node_ok(n2, satisfied, false, Seq::empty()),
        ensures
            n1.frontier_leaf_ids@ == n2.frontier_leaf_ids@,
    {
        self.lemma_unlock_nodes_agree(n1, n2, satisfied, false, Seq::empty());
    }

    /// The frontier of a root's blocker tree is determined by the root:
    /// every tree that meets the blocker-tree contract lists the same
    /// frontier leaves, so `blocker_frontier_leaf_ids` reports the frontier
    /// of the tree that `blocker_tree` builds.
    pub proof fn lemma_blocker_frontier_determined(&self, n1: WorkflowTreeNode, n2: WorkflowTreeNode)
        requires
            n1.ticket_id == n2.ticket_id,
            self.blocker_node_ok(n1, Seq::empty()),
            self.blocker_node_ok(n2, Seq::empty()),
        ensures
            n1.frontier_leaf_ids@ == n2.frontier_leaf_ids@,
    {
        self.lemma_blocker_nodes_agree(n1, n2, Seq::empty());
    }
}

/// A concatenation of non-empty frontiers is non-empty when there is one.
proof fn lemma_frontier_concat_nonempty(c: Seq<WorkflowTreeNode>)
    requires
        c.len() > 0,
        forall|i: int| 0 <= i < c.len() ==> (#[trigger] c[i]).frontier_leaf_ids@.len() >= 1,
    ensures
        frontier_concat(c).len() >= 1,
{
    assert(c[c.len() - 1] == c.last());
}

impl WorkflowModel {
    /// Every node of a blocker tree lists at least one frontier leaf, and
    /// counts exactly the leaves it lists.
    pub proof fn lemma_blocker_frontier_nonempty(&self, n: WorkflowTreeNode, path: Seq<u128>)
        requires
            self.blocker_node_ok(n, path),
        ensures
            n.frontier_leaf_ids@.len() >= 1,
            n.unresolved_frontier_leaf_count == n.frontier_leaf_ids@.len(),
        decreases n,
    {
        let id = n.ticket_id;
        if !path.contains(id) && !n.is_frontier && n.children@.len() > 0 {
            let c = n.children@;
            assert forall|i: int| 0 <= i < c.len() implies (#[trigger] c[i]).frontier_leaf_ids@.len() >= 1 by {
                assert(self.blocker_node_ok(c[i], path.push(id)));
                self.lemma_blocker_frontier_nonempty(c[i], path.push(id));
            }
            lemma_frontier_concat_nonempty(c);
        }
    }

    /// Every node of an unlock tree lists at least one frontier leaf, and
    /// counts exactly the leaves it lists.
    pub proof fn lemma_unlock_frontier_nonempty(&self, n: WorkflowTreeNode, satisfied: Seq<u128>, allow_frontier: bool, path: Seq<u128>)
        requires
            self.unlock_node_ok(n, satisfied, allow_frontier, path),
        ensures
            n.frontier_leaf_ids@.len() >= 1,
            n.unresolved_frontier_leaf_count == n.frontier_leaf_ids@.len(),
        decreases n,
    {
        let id = n.ticket_id;
        if !path.contains(id) && !n.is_frontier && n.children@.len() > 0 {
            let c = n.children@;
            assert forall|i: int| 0 <= i < c.len() implies (#[trigger] c[i]).frontier_leaf_ids@.len() >= 1 by {
                assert(self.unlock_node_ok(c[i], satisfied, true, path.push(id)));
                self.lemma_unlock_frontier_nonempty(c[i], satisfied, true, path.push(id));
            }
            lemma_frontier_concat_nonempty(c);
        }
    }
}

impl WorkflowModel {
    /// The shape of every node of a blocker tree (each child of a node meeting
    /// the blocker-tree contract meets it too, one step further along the
    /// path): it lists at least one frontier leaf and counts them; a frontier
    /// has no children, distance 0 and itself as its only leaf; a node with
    /// children lists their leaves in order, one step farther than the closest
    /// child; and a ticket already on the path, as around a dependency cycle,
    /// is a leaf with no remaining blockers, no frontier and distance 1.
    pub proof fn lemma_blocker_node_shape(&self, n: WorkflowTreeNode, path: Seq<u128>)
        requires
            self.blocker_node_ok(n, path),
        ensures
            n.frontier_leaf_ids@.len() >= 1,
            n.unresolved_frontier_leaf_count == n.frontier_leaf_ids@.len(),
            n.is_frontier ==> n.children@.len() == 0 && n.blocker_distance == 0 && n.frontier_leaf_ids@ == seq![n.ticket_id],
            n.children@.len() > 0 ==> n.frontier_leaf_ids@ == frontier_concat(n.children@)
                && n.blocker_distance == min_next_distance(n.children@),
            path.contains(n.ticket_id) ==> n.children@.len() == 0 && n.remaining_blocker_count == 0 && !n.is_frontier
                && n.blocker_distance == 1,
            forall|i: int| 0 <= i < n.children@.len() ==> self.blocker_node_ok(#[trigger] n.children@[i], path.push(n.ticket_id)),
    {
        self.lemma_blocker_frontier_nonempty(n, path);
        if !path.contains(n.ticket_id) && n.is_frontier {
            let ids = n.children@.map_values(|c: WorkflowTreeNode| c.ticket_id);
            ids.to_multiset_ensures();
            self@.unresolved(n.ticket_id).to_multiset_ensures();
            assert(ids.len() == 0);
        }
    }
}

/// Nothing of `s` is left once `e` is removed exactly when everything in
/// `s` is in `e`.
pub proof fn lemma_without_empty_iff(s: Seq<u128>, e: Seq<u128>)
    ensures
        (without(s, e).len() == 0) <==> (forall|y: u128| s.contains(y) ==> e.contains(y)),
    decreases s.len(),
{
    if s.len() > 0 {
        let init = s.drop_last();
        lemma_without_empty_iff(init, e);
        if without(s, e).len() == 0 {
            assert forall|y: u128| s.contains(y) implies e.contains(y) by {
                let k = choose|k: int| 0 <= k < s.len() && s[k] == y;
                if k < init.len() {
                    assert(init[k] == y);
                }
            }
        }
        if forall|y: u128| s.contains(y) ==> e.contains(y) {
            assert forall|y: u128| init.contains(y) implies e.contains(y) by {
                let k = choose|k: int| 0 <= k < init.len() && init[k] == y;
                assert(s[k] == y);
            }
            assert(s.contains(s.last())) by {
                assert(s[s.len() - 1] == s.last());
            }
        }
    }
}

/// What `actionable_in` keeps: exactly the elements of `s` with nothing
/// left blocking them, each as often as in `s` (so once when `s` repeats
/// nothing).
pub proof fn lemma_actionable_members(m: ModelView, s: Seq<u128>, satisfied: Seq<u128>)
    ensures
        forall|x: u128| #[trigger] actionable_in(m, s, satisfied).contains(x)
            <==> (s.contains(x) && without(m.unresolved(x), satisfied).len() == 0),
        s.no_duplicates() ==> actionable_in(m, s, satisfied).no_duplicates(),
    decreases s.len(),
{
    if s.len() > 0 {
        let init = s.drop_last();
        lemma_actionable_members(m, init, satisfied);
        let rest = actionable_in(m, init, satisfied);
        let r = actionable_in(m, s, satisfied);
        assert forall|x: u128| #[trigger] r.contains(x) <==> (s.contains(x) && without(m.unresolved(x), satisfied).len() == 0) by {
            if r.contains(x) {
                let k = choose|k: int| 0 <= k < r.len() && r[k] == x;
                if k < rest.len() {
                    assert(rest[k] == x);
                    assert(rest.contains(x));
                    assert(init.contains(x));
                    let q = choose|q: int| 0 <= q < init.len() && init[q] == x;
                    assert(s[q] == x);
                } else {
                    assert(r == rest.push(s.last()));
                    assert(s[s.len() - 1] == x);
                }
            }
            if s.contains(x) && without(m.unresolved(x), satisfied).len() == 0 {
                let q = choose|q: int| 0 <= q < s.len() && s[q] == x;
                if q < init.len() {
                    assert(init[q] == x);
                    assert(init.contains(x));
                    assert(rest.contains(x));
                    let k = choose|k: int| 0 <= k < rest.len() && rest[k] == x;
                    assert(r[k] == x);
                } else {
                    assert(r[r.len() - 1] == x);
                }
            }
        }
        if s.no_duplicates() {
            assert(init.no_duplicates()) by {
                assert forall|i: int, j: int| 0 <= i < init.len() && 0 <= j < init.len() && i != j implies init[i] != init[j] by {
                    assert(s[i] == init[i] && s[j] == init[j]);
                }
            }
            if without(m.unresolved(s.last()), satisfied).len() == 0 {
                assert(!rest.contains(s.last())) by {
                    if rest.contains(s.last()) {
                        let q = choose|q: int| 0 <= q < init.len() && init[q] == s.last();
                        assert(s[q] == s[s.len() - 1]);
                    }
                }
                assert forall|i: int, j: int| 0 <= i < r.len() && 0 <= j < r.len() && i != j implies r[i] != r[j] by {
                    if i < rest.len() && j < rest.len() {
                        assert(r[i] == rest[i] && r[j] == rest[j]);
                    } else if i < rest.len() {
                        assert(r[i] == rest[i]);
                    } else if j < rest.len() {
                        assert(r[j] == rest[j]);
                    }
                }
            }
        }
    }
}

/// The candidates in scope come each once when ticket ids are distinct.
pub proof fn lemma_eligible_distinct(ts: Seq<TicketView>, scope: Option<Seq<u128>>)
    requires
        distinct_ids(ts),
    ensures
        eligible_in(ts, scope).no_duplicates(),
        forall|x: u128| #[trigger] eligible_in(ts, scope).contains(x) ==> exists|i: int| 0 <= i < ts.len() && ts[i].id == x,
    decreases ts.len(),
{
    if ts.len() > 0 {
        let init = ts.drop_last();
        assert(distinct_ids(init)) by {
            assert forall|i: int, j: int| 0 <= i < init.len() && 0 <= j < init.len() && i != j implies init[i].id != init[j].id by {
                assert(ts[i] == init[i] && ts[j] == init[j]);
            }
        }
        lemma_eligible_distinct(init, scope);
        let rest = eligible_in(init, scope);
        let r = eligible_in(ts, scope);
        assert forall|x: u128| #[trigger] r.contains(x) implies exists|i: int| 0 <= i < ts.len() && ts[i].id == x by {
            let k = choose|k: int| 0 <= k < r.len() && r[k] == x;
            if k < rest.len() {
                assert(rest[k] == x);
                assert(rest.contains(x));
                let i = choose|i: int| 0 <= i < init.len() && init[i].id == x;
                assert(ts[i] == init[i]);
            } else {
                assert(ts[ts.len() - 1].id == x);
            }
        }
        if r.len() > rest.len() {
            let last = ts.last().id;
            assert(!rest.contains(last)) by {
                if rest.contains(last) {
                    let i = choose|i: int| 0 <= i < init.len() && init[i].id == last;
                    assert(ts[i] == init[i]);
                    assert(ts[ts.len() - 1].id == last);
                }
            }
            assert forall|i: int, j: int| 0 <= i < r.len() && 0 <= j < r.len() && i != j implies r[i] != r[j] by {
                if i < rest.len() && j < rest.len() {
                    assert(r[i] == rest[i] && r[j] == rest[j]);
                } else if i < rest.len() {
                    assert(r[i] == rest[i]);
                    assert(rest.contains(r[i]));
                } else if j < rest.len() {
                    assert(r[j] == rest[j]);
                    assert(rest.contains(r[j]));
                }
            }
        }
    }
}

impl WorkflowModel {
    /// The actionable candidates, as a set: exactly the eligible candidates
    /// (in scope and in a candidate state) all of whose unresolved
    /// prerequisites are among `satisfied`; and none of them is listed twice.
    pub proof fn lemma_actionable_set(&self, scope: Option<Seq<u128>>, satisfied: Seq<u128>)
        requires
            self.wf(),
        ensures
            actionable_in(self@, eligible_in(self@.tickets, scope), satisfied).no_duplicates(),
            forall|x: u128| #[trigger] actionable_in(self@, eligible_in(self@.tickets, scope), satisfied).contains(x)
                <==> (eligible_in(self@.tickets, scope).contains(x)
                    && forall|y: u128| self@.unresolved(x).contains(y) ==> satisfied.contains(y)),
    {
        let e = eligible_in(self@.tickets, scope);
        lemma_eligible_distinct(self@.tickets, scope);
        lemma_actionable_members(self@, e, satisfied);
        assert forall|x: u128| #[trigger] actionable_in(self@, e, satisfied).contains(x)
            <==> (e.contains(x) && forall|y: u128| self@.unresolved(x).contains(y) ==> satisfied.contains(y)) by {
            lemma_without_empty_iff(self@.unresolved(x), satisfied);
        }
    }
}

} // verus!
