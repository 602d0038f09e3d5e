//! Editor-extension core: host capabilities, ticket filtering, dependency
//! lookups and the state groups of the ticket sidebar.
use vstd::prelude::*;
use crate::text::{chars_of, string_of, str_eq, contains_chars, contains_seq};
use crate::catalog::{insert_token, strictly_sorted, vec_views};

verus! {

/// The version of the editor core.
pub open spec fn core_version_spec() -> Seq<char> {
    seq!['0', '.', '1', '.', '0']
}

/// Returns the core library version string, which hosts use to confirm
/// that the core loaded.
pub fn core_version() -> (r: String)
    ensures
        r@ == core_version_spec(),
        r@.len() > 0,
{
    let r = String::from_str("0.1.0");
    proof {
        reveal_strlit("0.1.0");
    }
    r
}

/// What a ticket summary holds.
pub struct TicketView {
    pub id: Seq<char>,
    pub ticket_type: Seq<char>,
    pub title: Seq<char>,
    pub state: Seq<char>,
}

/// Minimal ticket summary as the editor host hands it over; `title` and
/// `state` are empty when the service reported none.
#[derive(Debug, Clone)]
pub struct TicketSummary {
    id: String,
    ticket_type: String,
    title: String,
    state: String,
}

impl View for TicketSummary {
    type V = TicketView;

    closed spec fn view(&self) -> TicketView {
        TicketView {
            id: self.id@,
            ticket_type: self.ticket_type@,
            title: self.title@,
            state: self.state@,
        }
    }
}

impl TicketSummary {
    pub fn new(id: String, ticket_type: String, title: String, state: String) -> (r: Self)
        ensures
            r@ == (TicketView { id: id@, ticket_type: ticket_type@, title: title@, state: state@ }),
    {
        TicketSummary { id, ticket_type, title, state }
    }

    pub fn id(&self) -> (r: String)
        ensures
            r@ == self@.id,
    {
        self.id.clone()
    }

    pub fn ticket_type(&self) -> (r: String)
        ensures
            r@ == self@.ticket_type,
    {
        self.ticket_type.clone()
    }

    pub fn title(&self) -> (r: String)
        ensures
            r@ == self@.title,
    {
        self.title.clone()
    }

    pub fn state(&self) -> (r: String)
        ensures
            r@ == self@.state,
    {
        self.state.clone()
    }
}

/// What an edge record holds.
pub struct EdgeView {
    pub from: Seq<char>,
    pub to: Seq<char>,
    pub kind: Seq<char>,
}

/// A directed edge between two tickets, by id.
#[derive(Debug, Clone)]
pub struct EdgeRecord {
    from: String,
    to: String,
    kind: String,
}

impl View for EdgeRecord {
    type V = EdgeView;

    closed spec fn view(&self) -> EdgeView {
        EdgeView { from: self.from@, to: self.to@, kind: self.kind@ }
    }
}

impl EdgeRecord {
    pub fn new(from: String, to: String, kind: String) -> (r: Self)
        ensures
            r@ == (EdgeView { from: from@, to: to@, kind: kind@ }),
    {
        EdgeRecord { from, to, kind }
    }

    pub fn from_id(&self) -> (r: String)
        ensures
            r@ == self@.from,
    {
        self.from.clone()
    }

    pub fn to_id(&self) -> (r: String)
        ensures
            r@ == self@.to,
    {
        self.to.clone()
    }

    pub fn kind(&self) -> (r: String)
        ensures
            r@ == self@.kind,
    {
        self.kind.clone()
    }
}

/// The kind of editor host the extension runs in.
#[derive(Debug, Clone, Copy, PartialEq, Eq)]
pub enum HostKind {
    DesktopNode,
    RemoteWorkspace,
    BrowserWeb,
    Virtual,
}

/// Whether server control (starting the service, spawning its binary) is
/// offered: on desktop and remote-workspace hosts.
pub fn supports_server_control(host: HostKind) -> (r: bool)
    ensures
        r == (host is DesktopNode || host is RemoteWorkspace),
{
    match host {
        HostKind::DesktopNode | HostKind::RemoteWorkspace => true,
        _ => false,
    }
}

/// Whether the browser bridge is offered: on desktop hosts only.
pub fn supports_browser_bridge(host: HostKind) -> (r: bool)
    ensures
        r == (host is DesktopNode),
{
    match host {
        HostKind::DesktopNode => true,
        _ => false,
    }
}

/// Whether on-disk file browsing is available: on desktop and
/// remote-workspace hosts.
pub fn supports_file_browsing(host: HostKind) -> (r: bool)
    ensures
        r == (host is DesktopNode || host is RemoteWorkspace),
{
    match host {
        HostKind::DesktopNode | HostKind::RemoteWorkspace => true,
        _ => false,
    }
}

/// The Unicode lower-case mapping of a string, as `str::to_lowercase`
/// computes it.
pub uninterp spec fn lowercase_of(s: Seq<char>) -> Seq<char>;

/// `str::to_lowercase`. Claimed: the result is the Unicode lower-case
/// mapping of the argument, a function of the argument alone; what that
/// mapping is on given characters is not stated.
#[verifier::external_body]
fn to_lowercase(s: &str) -> (r: String)
    ensures
        r@ == lowercase_of(s@),
{
    s.to_lowercase()
}

/// A ticket passes the state filter (when one is set) and the query (when
/// one is set): the lower-cased query occurs in the lower-cased title or id.
pub open spec fn matches_spec(t: TicketView, state_filter: Seq<char>, query: Seq<char>) -> bool {
    &&& (state_filter.len() == 0 || t.state == state_filter)
    &&& (query.len() == 0 || contains_seq(lowercase_of(t.title), lowercase_of(query))
        || contains_seq(lowercase_of(t.id), lowercase_of(query)))
}

/// Whether a ticket matches both the state filter and the query.
pub fn ticket_matches(ticket: &TicketSummary, state_filter: &str, query: &str) -> (r: bool)
    ensures
        r == matches_spec(ticket@, state_filter@, query@),
{
    if state_filter.unicode_len() > 0 && !str_eq(ticket.state.as_str(), state_filter) {
        return false;
    }
    if query.unicode_len() > 0 {
        let q = to_lowercase(query);
        let qv = chars_of(q.as_str());
        let title = to_lowercase(ticket.title.as_str());
        let id = to_lowercase(ticket.id.as_str());
        if !contains_chars(&chars_of(title.as_str()), &qv) && !contains_chars(
            &chars_of(id.as_str()),
            &qv,
        ) {
            return false;
        }
    }
    true
}

/// The views of a list of ticket summaries.
pub open spec fn ticket_views(ts: Seq<TicketSummary>) -> Seq<TicketView> {
    ts.map_values(|t: TicketSummary| t@)
}

/// The positions of the tickets that match, in order.
pub open spec fn matching_indices(ts: Seq<TicketView>, state_filter: Seq<char>, query: Seq<char>) -> Seq<int>
    decreases ts.len(),
{
    if ts.len() == 0 {
        Seq::empty()
    } else {
        let prev = matching_indices(ts.drop_last(), state_filter, query);
        if matches_spec(ts.last(), state_filter, query) {
            prev.push(ts.len() - 1)
        } else {
            prev
        }
    }
}

/// The positions of the tickets that match both filters.
pub fn filter_indices(tickets: &[TicketSummary], state_filter: &str, query: &str) -> (r: Vec<usize>)
    ensures
        r@.map_values(|i: usize| i as int) == matching_indices(ticket_views(tickets@), state_filter@, query@),
{
    let mut r: Vec<usize> = Vec::new();
    let mut i: usize = 0;
    let ghost tv = ticket_views(tickets@);
    while i < tickets.len()
        invariant
            i <= tickets@.len(),
            tv == ticket_views(tickets@),
            r@.map_values(|i: usize| i as int) == matching_indices(tv.subrange(0, i as int), state_filter@, query@),
        decreases tickets@.len() - i,
    {
        let ghost sub = tv.subrange(0, i + 1);
        assert(sub.drop_last() =~= tv.subrange(0, i as int));
        let ghost before = r@;
        if ticket_matches(&tickets[i], state_filter, query) {
            r.push(i);
            assert(r@.map_values(|i: usize| i as int) =~= before.map_values(|i: usize| i as int).push(i as int));
        }
        i = i + 1;
    }
    assert(tv.subrange(0, tickets@.len() as int) =~= tv);
    r
}

/// The address that opens a ticket in the ticket viewer.
pub open spec fn viewer_url_spec(base_url: Seq<char>, workspace: Seq<char>, ticket_id: Seq<char>) -> Seq<char> {
    base_url + seq!['/', '?', 'w', 'o', 'r', 'k', 's', 'p', 'a', 'c', 'e', '='] + workspace + seq![
        '&',
        't',
        'i',
        'c',
        'k',
        'e',
        't',
        '=',
    ] + ticket_id
}

fn push_str_chars(out: &mut Vec<char>, s: &str)
    ensures
        final(out)@ == old(out)@ + s@,
{
    let v = chars_of(s);
    let mut i: usize = 0;
    let ghost start = out@;
    while i < v.len()
        invariant
            i <= v@.len(),
            v@ == s@,
            out@ == start + v@.subrange(0, i as int),
        decreases v@.len() - i,
    {
        out.push(v[i]);
        assert(v@.subrange(0, i + 1) =~= v@.subrange(0, i as int).push(v@[i as int]));
        i = i + 1;
    }
    assert(v@.subrange(0, v@.len() as int) =~= v@);
}

/// The address that opens a ticket in the ticket viewer.
pub fn ticket_viewer_url(base_url: &str, workspace: &str, ticket_id: &str) -> (r: String)
    ensures
        r@ == viewer_url_spec(base_url@, workspace@, ticket_id@),
{
    let mut out: Vec<char> = Vec::new();
    push_str_chars(&mut out, base_url);
    push_str_chars(&mut out, "/?workspace=");
    push_str_chars(&mut out, workspace);
    push_str_chars(&mut out, "&ticket=");
    push_str_chars(&mut out, ticket_id);
    proof {
        reveal_strlit("/?workspace=");
        reveal_strlit("&ticket=");
    }
    assert(out@ =~= viewer_url_spec(base_url@, workspace@, ticket_id@));
    string_of(out.as_slice())
}

/// The label of a ticket: its title, or the first eight characters of its
/// id (all of it when shorter) in parentheses when the title is empty.
pub open spec fn display_label_spec(id: Seq<char>, title: Seq<char>) -> Seq<char> {
    if title.len() > 0 {
        title
    } else {
        seq!['('] + (if id.len() <= 8 { id } else { id.take(8) }) + seq![')']
    }
}

/// The short display label of a ticket: its title, or `(` the first eight
/// characters of its id `)` when the title is empty.
pub fn ticket_display_label(id: &str, title: &str) -> (r: String)
    ensures
        r@ == display_label_spec(id@, title@),
{
    if title.unicode_len() > 0 {
        return title.to_owned();
    }
    let v = chars_of(id);
    let k: usize = if v.len() <= 8 { v.len() } else { 8 };
    let mut out: Vec<char> = Vec::new();
    out.push('(');
    let mut j: usize = 0;
    while j < k
        invariant
            j <= k <= v@.len(),
            out@ == seq!['('] + v@.subrange(0, j as int),
        decreases k - j,
    {
        out.push(v[j]);
        assert(v@.subrange(0, j + 1) =~= v@.subrange(0, j as int).push(v@[j as int]));
        j = j + 1;
    }
    out.push(')');
    assert(v@.subrange(0, k as int) =~= (if v@.len() <= 8 { v@ } else { v@.take(8) }));
    assert(out@ =~= display_label_spec(id@, title@));
    string_of(out.as_slice())
}


/// The kind of edge that makes one ticket depend on another.
pub open spec fn depends_on_kind() -> Seq<char> {
    seq!['d', 'e', 'p', 'e', 'n', 'd', 's', '_', 'o', 'n']
}

/// Whether some ticket has the given id.
pub open spec fn has_id(ts: Seq<TicketView>, id: Seq<char>) -> bool {
    exists|i: int| 0 <= i < ts.len() && ts[i].id == id
}

/// A dependency edge between two known tickets.
pub open spec fn dep_edge(e: EdgeView, ts: Seq<TicketView>) -> bool {
    e.kind == depends_on_kind() && has_id(ts, e.from) && has_id(ts, e.to)
}

/// The views of a list of edges.
pub open spec fn edge_views(es: Seq<EdgeRecord>) -> Seq<EdgeView> {
    es.map_values(|e: EdgeRecord| e@)
}

/// What `k` depends on: the targets of its dependency edges, in edge order.
pub open spec fn targets_of(es: Seq<EdgeView>, ts: Seq<TicketView>, k: Seq<char>) -> Seq<Seq<char>>
    decreases es.len(),
{
    if es.len() == 0 {
        Seq::empty()
    } else {
        let prev = targets_of(es.drop_last(), ts, k);
        let e = es.last();
        if dep_edge(e, ts) && e.from == k {
            prev.push(e.to)
        } else {
            prev
        }
    }
}

/// What depends on `k`: the sources of its dependency edges, in edge order.
pub open spec fn sources_of(es: Seq<EdgeView>, ts: Seq<TicketView>, k: Seq<char>) -> Seq<Seq<char>>
    decreases es.len(),
{
    if es.len() == 0 {
        Seq::empty()
    } else {
        let prev = sources_of(es.drop_last(), ts, k);
        let e = es.last();
        if dep_edge(e, ts) && e.to == k {
            prev.push(e.from)
        } else {
            prev
        }
    }
}

/// The views of a list of strings.
pub open spec fn string_views(s: Seq<String>) -> Seq<Seq<char>> {
    s.map_values(|x: String| x@)
}

/// An id-keyed list holds, under each key once, the non-empty list `f`
/// gives for it, and has a key for every id that `f` gives a non-empty
/// list for.
pub open spec fn lists_agree(l: Seq<(String, Vec<String>)>, f: spec_fn(Seq<char>) -> Seq<Seq<char>>) -> bool {
    &&& forall|i: int, j: int| 0 <= i < j < l.len() ==> l[i].0@ != l[j].0@
    &&& forall|i: int| 0 <= i < l.len() ==> string_views(#[trigger] l[i].1@) == f(l[i].0@) && f(l[i].0@).len() > 0
    &&& forall|k: Seq<char>| #[trigger] f(k).len() > 0 ==> exists|i: int| 0 <= i < l.len() && l[i].0@ == k
}

/// Dependency lookups built from a flat edge list: for each ticket what it
/// depends on (its children in the tree) and what depends on it (its
/// parents).
pub struct DependencyMaps {
    pub deps_of: Vec<(String, Vec<String>)>,
    pub parent_of: Vec<(String, Vec<String>)>,
}

/// Appends `val` to the list under `key`, adding the key when it is new.
fn add_to(
    l: &mut Vec<(String, Vec<String>)>,
    key: &String,
    val: &String,
    Ghost(f): Ghost<spec_fn(Seq<char>) -> Seq<Seq<char>>>,
    Ghost(g): Ghost<spec_fn(Seq<char>) -> Seq<Seq<char>>>,
)
    requires
        lists_agree(old(l)@, f),
        forall|k: Seq<char>| #[trigger] g(k) == if k == key@ { f(k).push(val@) } else { f(k) },
    ensures
        lists_agree(final(l)@, g),
{
    let mut i: usize = 0;
    while i < l.len()
        invariant
            i <= l@.len(),
            l@ == old(l)@,
            lists_agree(old(l)@, f),
            forall|k: Seq<char>| #[trigger] g(k) == if k == key@ { f(k).push(val@) } else { f(k) },
            forall|q: int| 0 <= q < i ==> l@[q].0@ != key@,
        decreases l@.len() - i,
    {
        if str_eq(l[i].0.as_str(), key.as_str()) {
            let ghost before = l@;
            let mut entry: (String, Vec<String>) = (String::new(), Vec::new());
            l.set_and_swap(i, &mut entry);
            let ghost old_list = entry.1@;
            entry.1.push(val.clone());
            assert(string_views(entry.1@) =~= string_views(old_list).push(val@));
            l.set_and_swap(i, &mut entry);
            assert forall|k: Seq<char>| #[trigger] g(k).len() > 0 implies exists|q: int| 0 <= q < l@.len() && l@[q].0@ == k by {
                if k == key@ {
                    assert(l@[i as int].0@ == k);
                } else {
                    assert(f(k).len() > 0);
                    let q = choose|q: int| 0 <= q < before.len() && before[q].0@ == k;
                    assert(l@[q].0@ == k);
                }
            }
            assert forall|q: int| 0 <= q < l@.len() implies string_views(#[trigger] l@[q].1@) == g(l@[q].0@) && g(l@[q].0@).len() > 0 by {
                if q != i {
                    assert(l@[q] == before[q]);
                    if q < i {
                        assert(before[q].0@ != before[i as int].0@);
                    } else {
                        assert(before[i as int].0@ != before[q].0@);
                    }
                } else {
                    assert(before[q].0@ == key@);
                    assert(l@[q].0 == before[q].0);
                    assert(string_views(l@[q].1@) == string_views(before[q].1@).push(val@));
                }
            }
            return;
        }
        i = i + 1;
    }
    let ghost before = l@;
    let mut list: Vec<String> = Vec::new();
    list.push(val.clone());
    assert(f(key@).len() == 0) by {
        if f(key@).len() > 0 {
            let q = choose|q: int| 0 <= q < before.len() && before[q].0@ == key@;
        }
    }
    assert(string_views(list@) =~= seq![val@]);
    assert(f(key@).push(val@) =~= seq![val@]);
    l.push((key.clone(), list));
    assert forall|k: Seq<char>| #[trigger] g(k).len() > 0 implies exists|q: int| 0 <= q < l@.len() && l@[q].0@ == k by {
        if k == key@ {
            assert(l@[before.len() as int].0@ == k);
        } else {
            assert(f(k).len() > 0);
            let q = choose|q: int| 0 <= q < before.len() && before[q].0@ == k;
            assert(l@[q].0@ == k);
        }
    }
    assert forall|q: int| 0 <= q < l@.len() implies string_views(#[trigger] l@[q].1@) == g(l@[q].0@) && g(l@[q].0@).len() > 0 by {
        if q < before.len() {
            assert(l@[q] == before[q]);
        }
    }
}

/// Whether some ticket has the given id.
fn known_id(tickets: &[TicketSummary], id: &str) -> (r: bool)
    ensures
        r == has_id(ticket_views(tickets@), id@),
{
    let mut i: usize = 0;
    while i < tickets.len()
        invariant
            i <= tickets@.len(),
            forall|q: int| 0 <= q < i ==> tickets@[q]@.id != id@,
        decreases tickets@.len() - i,
    {
        if str_eq(tickets[i].id.as_str(), id) {
            assert(ticket_views(tickets@)[i as int].id == id@);
            return true;
        }
        i = i + 1;
    }
    assert forall|q: int| 0 <= q < tickets@.len() implies ticket_views(tickets@)[q].id != id@ by {
        assert(ticket_views(tickets@)[q] == tickets@[q]@);
    }
    false
}

impl DependencyMaps {
    /// Builds the lookups from the `depends_on` edges whose two ends are
    /// both known tickets.
    pub fn build(tickets: &[TicketSummary], edges: &[EdgeRecord]) -> (r: Self)
        ensures
            lists_agree(r.deps_of@, |k: Seq<char>| targets_of(edge_views(edges@), ticket_views(tickets@), k)),
            lists_agree(r.parent_of@, |k: Seq<char>| sources_of(edge_views(edges@), ticket_views(tickets@), k)),
    {
        let ghost ts = ticket_views(tickets@);
        let ghost es = edge_views(edges@);
        let mut deps_of: Vec<(String, Vec<String>)> = Vec::new();
        let mut parent_of: Vec<(String, Vec<String>)> = Vec::new();
        let mut i: usize = 0;
        let ghost f0 = |k: Seq<char>| targets_of(es.subrange(0, 0), ts, k);
        let ghost p0 = |k: Seq<char>| sources_of(es.subrange(0, 0), ts, k);
        assert(lists_agree(deps_of@, f0)) by {
            assert forall|k: Seq<char>| #[trigger] f0(k).len() > 0 implies false by {
                assert(es.subrange(0, 0).len() == 0);
            }
        }
        assert(lists_agree(parent_of@, p0)) by {
            assert forall|k: Seq<char>| #[trigger] p0(k).len() > 0 implies false by {
                assert(es.subrange(0, 0).len() == 0);
            }
        }
        proof {
            reveal_strlit("depends_on");
        }
        while i < edges.len()
            invariant
                i <= edges@.len(),
                ts == ticket_views(tickets@),
                es == edge_views(edges@),
                lists_agree(deps_of@, |k: Seq<char>| targets_of(es.subrange(0, i as int), ts, k)),
                lists_agree(parent_of@, |k: Seq<char>| sources_of(es.subrange(0, i as int), ts, k)),
            decreases edges@.len() - i,
        {
            let ghost fi = |k: Seq<char>| targets_of(es.subrange(0, i as int), ts, k);
            let ghost pi = |k: Seq<char>| sources_of(es.subrange(0, i as int), ts, k);
            let ghost fn_ = |k: Seq<char>| targets_of(es.subrange(0, i + 1), ts, k);
            let ghost pn = |k: Seq<char>| sources_of(es.subrange(0, i + 1), ts, k);
            let ghost sub = es.subrange(0, i + 1);
            assert(sub.drop_last() =~= es.subrange(0, i as int));
            assert(sub.last() == edges@[i as int]@);
            let edge = &edges[i];
            proof {
                reveal_strlit("depends_on");
            }
            let relevant = str_eq(edge.kind.as_str(), "depends_on") && known_id(tickets, edge.from.as_str())
                && known_id(tickets, edge.to.as_str());
            assert("depends_on"@ == depends_on_kind());
            assert(edge@.kind == edge.kind@);
            assert(relevant == dep_edge(edge@, ts));
            if relevant {
                add_to(&mut deps_of, &edge.from, &edge.to, Ghost(fi), Ghost(fn_));
                add_to(&mut parent_of, &edge.to, &edge.from, Ghost(pi), Ghost(pn));
            } else {
                assert(fn_ =~= fi);
                assert(pn =~= pi);
            }
            i = i + 1;
        }
        assert(es.subrange(0, edges@.len() as int) =~= es);
        DependencyMaps { deps_of, parent_of }
    }
}

/// The list under `id` in an id-keyed list: the first entry with that key.
pub open spec fn entry_for(l: Seq<(String, Vec<String>)>, id: Seq<char>, r: Option<Vec<String>>) -> bool {
    match r {
        Some(v) => exists|i: int|
            0 <= i < l.len() && l[i].0@ == id && l[i].1 == v && forall|q: int| 0 <= q < i ==> l[q].0@ != id,
        None => forall|i: int| 0 <= i < l.len() ==> l[i].0@ != id,
    }
}

fn lookup_list<'a>(l: &'a Vec<(String, Vec<String>)>, id: &str) -> (r: Option<&'a Vec<String>>)
    ensures
        entry_for(l@, id@, match r { Some(v) => Some(*v), None => None }),
{
    let mut i: usize = 0;
    while i < l.len()
        invariant
            i <= l@.len(),
            forall|q: int| 0 <= q < i ==> l@[q].0@ != id@,
        decreases l@.len() - i,
    {
        if str_eq(l[i].0.as_str(), id) {
            return Some(&l[i].1);
        }
        i = i + 1;
    }
    None
}

impl DependencyMaps {
    /// What the ticket with this id depends on, if anything.
    pub fn dependencies(&self, id: &str) -> (r: Option<&Vec<String>>)
        ensures
            entry_for(self.deps_of@, id@, match r { Some(v) => Some(*v), None => None }),
    {
        lookup_list(&self.deps_of, id)
    }

    /// What depends on the ticket with this id, if anything.
    pub fn parents(&self, id: &str) -> (r: Option<&Vec<String>>)
        ensures
            entry_for(self.parent_of@, id@, match r { Some(v) => Some(*v), None => None }),
    {
        lookup_list(&self.parent_of, id)
    }
}


/// What a state group holds.
pub struct StateGroupView {
    pub state: Seq<char>,
    pub total: nat,
    pub root_ids: Seq<Seq<char>>,
}

/// A group of tickets that share a state, as the sidebar shows it.
#[derive(Debug, Clone)]
pub struct StateGroup {
    /// The state value (such as `planned`).
    pub state: String,
    /// How many visible tickets are in this state.
    pub total: usize,
    /// The ids of the root tickets: those with no parent in the same group.
    pub root_ids: Vec<String>,
}

impl View for StateGroup {
    type V = StateGroupView;

    open spec fn view(&self) -> StateGroupView {
        StateGroupView { state: self.state@, total: self.total as nat, root_ids: string_views(self.root_ids@) }
    }
}

/// The tickets at the given positions.
pub open spec fn pick(tv: Seq<TicketView>, idx: Seq<usize>) -> Seq<TicketView> {
    idx.map_values(|i: usize| tv[i as int])
}

/// The tickets that pass both filters, in order.
pub open spec fn visible_spec(tv: Seq<TicketView>, state_filter: Seq<char>, query: Seq<char>) -> Seq<TicketView> {
    tv.filter(|t: TicketView| matches_spec(t, state_filter, query))
}

/// The visible tickets in state `s`, in order.
pub open spec fn bucket_spec(vis: Seq<TicketView>, s: Seq<char>) -> Seq<TicketView> {
    vis.filter(|t: TicketView| t.state == s)
}

/// Whether one of `parents` is the id of a ticket of `b`.
pub open spec fn has_parent_in(parents: Seq<Seq<char>>, b: Seq<TicketView>) -> bool {
    exists|i: int, j: int| 0 <= i < parents.len() && 0 <= j < b.len() && parents[i] == b[j].id
}

/// The ids of the tickets of a bucket that have no parent in it.
pub open spec fn bucket_roots(b: Seq<TicketView>, es: Seq<EdgeView>, tv: Seq<TicketView>) -> Seq<Seq<char>> {
    b.filter(|t: TicketView| !has_parent_in(sources_of(es, tv, t.id), b)).map_values(|t: TicketView| t.id)
}

/// The group of the visible tickets in state `s`.
pub open spec fn group_of(vis: Seq<TicketView>, es: Seq<EdgeView>, tv: Seq<TicketView>, s: Seq<char>) -> StateGroupView {
    StateGroupView {
        state: s,
        total: bucket_spec(vis, s).len(),
        root_ids: bucket_roots(bucket_spec(vis, s), es, tv),
    }
}

/// The states of some tickets.
pub open spec fn states_of(vis: Seq<TicketView>) -> Set<Seq<char>> {
    vis.map_values(|t: TicketView| t.state).to_set()
}

/// The states of the schema order that some visible ticket has, each at its
/// first place in the order.
pub open spec fn schema_states(order: Seq<Seq<char>>, present: Set<Seq<char>>) -> Seq<Seq<char>>
    decreases order.len(),
{
    if order.len() == 0 {
        Seq::empty()
    } else {
        let prev = schema_states(order.drop_last(), present);
        let s = order.last();
        if present.contains(s) && !order.drop_last().contains(s) {
            prev.push(s)
        } else {
            prev
        }
    }
}

/// The group states come in schema order first, then the other states of
/// visible tickets in code-point order, each once.
pub open spec fn group_order_ok(states: Seq<Seq<char>>, order: Seq<Seq<char>>, vis: Seq<TicketView>) -> bool {
    let sch = schema_states(order, states_of(vis));
    let rest = states.subrange(sch.len() as int, states.len() as int);
    &&& sch.len() <= states.len()
    &&& states.subrange(0, sch.len() as int) == sch
    &&& strictly_sorted(rest)
    &&& rest.to_set() == states_of(vis).difference(order.to_set())
}

proof fn lemma_pick_push(tv: Seq<TicketView>, idx: Seq<usize>, i: usize)
    ensures
        pick(tv, idx.push(i)) == pick(tv, idx).push(tv[i as int]),
{
    assert(pick(tv, idx.push(i)) =~= pick(tv, idx).push(tv[i as int]));
}

proof fn lemma_matching_visible(tv: Seq<TicketView>, sf: Seq<char>, q: Seq<char>, idx: Seq<usize>)
    requires
        idx.map_values(|i: usize| i as int) == matching_indices(tv, sf, q),
    ensures
        pick(tv, idx) == visible_spec(tv, sf, q),
        forall|k: int| 0 <= k < idx.len() ==> idx[k] < tv.len(),
    decreases tv.len(),
{
    reveal(Seq::filter);
    if tv.len() == 0 {
        assert(idx.len() == 0) by {
            assert(idx.map_values(|i: usize| i as int).len() == 0);
        }
        assert(pick(tv, idx) =~= visible_spec(tv, sf, q));
    } else {
        let pred = |t: TicketView| matches_spec(t, sf, q);
        let sub = tv.drop_last();
        let prev = matching_indices(sub, sf, q);
        if matches_spec(tv.last(), sf, q) {
            let short = idx.drop_last();
            assert(idx.map_values(|i: usize| i as int).len() == prev.len() + 1);
            assert(short.map_values(|i: usize| i as int) =~= prev) by {
                assert forall|k: int| 0 <= k < prev.len() implies short.map_values(|i: usize| i as int)[k] == prev[k] by {
                    assert(idx.map_values(|i: usize| i as int)[k] == prev.push(tv.len() - 1)[k]);
                }
            }
            lemma_matching_visible(sub, sf, q, short);
            assert(idx.map_values(|i: usize| i as int)[idx.len() - 1] == tv.len() - 1);
            assert(idx =~= short.push(idx.last()));
            assert(pick(tv, short) =~= pick(sub, short));
            lemma_pick_push(tv, short, idx.last());
            assert(visible_spec(tv, sf, q) == visible_spec(sub, sf, q).push(tv.last()));
        } else {
            lemma_matching_visible(sub, sf, q, idx);
            assert(pick(tv, idx) =~= pick(sub, idx));
            assert(visible_spec(tv, sf, q) == visible_spec(sub, sf, q));
        }
    }
}

/// Whether the visible tickets at positions `vis_idx` include one in state `s`.
fn any_in_state(tickets: &[TicketSummary], vis_idx: &Vec<usize>, s: &str) -> (r: bool)
    requires
        forall|k: int| 0 <= k < vis_idx@.len() ==> vis_idx@[k] < tickets@.len(),
    ensures
        r == states_of(pick(ticket_views(tickets@), vis_idx@)).contains(s@),
{
    let ghost vis = pick(ticket_views(tickets@), vis_idx@);
    let mut k: usize = 0;
    while k < vis_idx.len()
        invariant
            k <= vis_idx@.len(),
            vis == pick(ticket_views(tickets@), vis_idx@),
            forall|k: int| 0 <= k < vis_idx@.len() ==> vis_idx@[k] < tickets@.len(),
            forall|q: int| 0 <= q < k ==> vis[q].state != s@,
        decreases vis_idx@.len() - k,
    {
        if str_eq(tickets[vis_idx[k]].state.as_str(), s) {
            assert(vis.map_values(|t: TicketView| t.state)[k as int] == s@);
            return true;
        }
        k = k + 1;
    }
    let ghost sts = vis.map_values(|t: TicketView| t.state);
    assert(!sts.contains(s@)) by {
        if sts.contains(s@) {
            let q = choose|q: int| 0 <= q < sts.len() && #[trigger] sts[q] == s@;
            assert(vis[q].state == s@);
        }
    }
    false
}

/// Whether `s` occurs among the first `n` states of the order.
fn order_has(order: &[String], n: usize, s: &str) -> (r: bool)
    requires
        n <= order@.len(),
    ensures
        r == string_views(order@).subrange(0, n as int).contains(s@),
{
    let ghost sv = string_views(order@).subrange(0, n as int);
    let mut k: usize = 0;
    while k < n
        invariant
            k <= n <= order@.len(),
            sv == string_views(order@).subrange(0, n as int),
            forall|q: int| 0 <= q < k ==> sv[q] != s@,
        decreases n - k,
    {
        if str_eq(order[k].as_str(), s) {
            assert(sv[k as int] == s@);
            return true;
        }
        k = k + 1;
    }
    false
}

/// Whether one of `parents` is the id of a ticket at the positions `b`.
fn any_parent_in(parents: &Vec<String>, tickets: &[TicketSummary], b: &Vec<usize>) -> (r: bool)
    requires
        forall|k: int| 0 <= k < b@.len() ==> b@[k] < tickets@.len(),
    ensures
        r == has_parent_in(string_views(parents@), pick(ticket_views(tickets@), b@)),
{
    let ghost ps = string_views(parents@);
    let ghost bv = pick(ticket_views(tickets@), b@);
    let mut i: usize = 0;
    while i < parents.len()
        invariant
            i <= parents@.len(),
            ps == string_views(parents@),
            bv == pick(ticket_views(tickets@), b@),
            forall|k: int| 0 <= k < b@.len() ==> b@[k] < tickets@.len(),
            forall|x: int, y: int| 0 <= x < i && 0 <= y < bv.len() ==> ps[x] != bv[y].id,
        decreases parents@.len() - i,
    {
        let mut j: usize = 0;
        while j < b.len()
            invariant
                i < parents@.len(),
                j <= b@.len(),
                ps == string_views(parents@),
                bv == pick(ticket_views(tickets@), b@),
                forall|k: int| 0 <= k < b@.len() ==> b@[k] < tickets@.len(),
                forall|x: int, y: int| 0 <= x < i && 0 <= y < bv.len() ==> ps[x] != bv[y].id,
                forall|y: int| 0 <= y < j ==> ps[i as int] != bv[y].id,
            decreases b@.len() - j,
        {
            if str_eq(parents[i].as_str(), tickets[b[j]].id.as_str()) {
                assert(ps[i as int] == bv[j as int].id);
                return true;
            }
            j = j + 1;
        }
        i = i + 1;
    }
    false
}

/// The group of the visible tickets (at positions `vis_idx`) in state `s`.
fn make_group(
    tickets: &[TicketSummary],
    edges: &[EdgeRecord],
    maps: &DependencyMaps,
    vis_idx: &Vec<usize>,
    s: &str,
) -> (g: StateGroup)
    requires
        forall|k: int| 0 <= k < vis_idx@.len() ==> vis_idx@[k] < tickets@.len(),
        lists_agree(maps.parent_of@, |k: Seq<char>| sources_of(edge_views(edges@), ticket_views(tickets@), k)),
    ensures
        g@ == group_of(pick(ticket_views(tickets@), vis_idx@), edge_views(edges@), ticket_views(tickets@), s@),
{
    let ghost tv = ticket_views(tickets@);
    let ghost es = edge_views(edges@);
    let ghost vis = pick(tv, vis_idx@);
    let ghost pred = |t: TicketView| t.state == s@;
    let mut b: Vec<usize> = Vec::new();
    let mut k: usize = 0;
    while k < vis_idx.len()
        invariant
            k <= vis_idx@.len(),
            tv == ticket_views(tickets@),
            vis == pick(tv, vis_idx@),
            forall|k: int| 0 <= k < vis_idx@.len() ==> vis_idx@[k] < tickets@.len(),
            forall|q: int| 0 <= q < b@.len() ==> b@[q] < tickets@.len(),
            pred == (|t: TicketView| t.state == s@),
            pick(tv, b@) == vis.subrange(0, k as int).filter(pred),
        decreases vis_idx@.len() - k,
    {
        proof {
            reveal(Seq::filter);
        }
        let ghost sub = vis.subrange(0, k + 1);
        assert(sub.drop_last() =~= vis.subrange(0, k as int));
        assert(sub.last() == tv[vis_idx@[k as int] as int]);
        let i = vis_idx[k];
        if str_eq(tickets[i].state.as_str(), s) {
            proof {
                lemma_pick_push(tv, b@, i);
            }
            b.push(i);
        }
        k = k + 1;
    }
    assert(vis.subrange(0, vis_idx@.len() as int) =~= vis);
    let ghost bv = pick(tv, b@);
    assert(bv == bucket_spec(vis, s@));
    let ghost rpred = |t: TicketView| !has_parent_in(sources_of(es, tv, t.id), bv);
    let mut roots: Vec<String> = Vec::new();
    let mut j: usize = 0;
    while j < b.len()
        invariant
            j <= b@.len(),
            tv == ticket_views(tickets@),
            es == edge_views(edges@),
            bv == pick(tv, b@),
            forall|q: int| 0 <= q < b@.len() ==> b@[q] < tickets@.len(),
            lists_agree(maps.parent_of@, |k: Seq<char>| sources_of(es, tv, k)),
            rpred == (|t: TicketView| !has_parent_in(sources_of(es, tv, t.id), bv)),
            string_views(roots@) == bv.subrange(0, j as int).filter(rpred).map_values(|t: TicketView| t.id),
        decreases b@.len() - j,
    {
        proof {
            reveal(Seq::filter);
        }
        let ghost sub = bv.subrange(0, j + 1);
        assert(sub.drop_last() =~= bv.subrange(0, j as int));
        let t = &tickets[b[j]];
        assert(sub.last() == t@);
        let ghost srcs = sources_of(es, tv, t@.id);
        let ghost l = maps.parent_of@;
        let has_parent = match maps.parents(t.id.as_str()) {
            Some(ps) => {
                proof {
                    let q = choose|q: int|
                        0 <= q < l.len() && l[q].0@ == t@.id && l[q].1 == *ps && forall|x: int| 0 <= x < q ==> l[x].0@ != t@.id;
                    assert(string_views(l[q].1@) == srcs);
                }
                any_parent_in(ps, tickets, &b)
            },
            None => {
                proof {
                    if srcs.len() > 0 {
                        assert((|k: Seq<char>| sources_of(es, tv, k))(t@.id).len() > 0);
                        let q = choose|q: int| 0 <= q < l.len() && l[q].0@ == t@.id;
                        assert(false);
                    }
                }
                false
            },
        };
        assert(has_parent == has_parent_in(srcs, bv));
        let ghost before = roots@;
        if !has_parent {
            let id = t.id.clone();
            roots.push(id);
            assert(string_views(roots@) =~= string_views(before).push(t@.id));
            assert(sub.filter(rpred) == bv.subrange(0, j as int).filter(rpred).push(t@));
            assert(sub.filter(rpred).map_values(|t: TicketView| t.id) =~= bv.subrange(0, j as int).filter(rpred).map_values(|t: TicketView| t.id).push(t@.id));
        } else {
            assert(sub.filter(rpred) == bv.subrange(0, j as int).filter(rpred));
        }
        j = j + 1;
    }
    assert(bv.subrange(0, b@.len() as int) =~= bv);
    let total = b.len();
    let state = str_to_string(s);
    StateGroup { state, total, root_ids: roots }
}

fn str_to_string(s: &str) -> (r: String)
    ensures
        r@ == s@,
{
    s.to_owned()
}


/// The states of a list of groups.
pub open spec fn group_states(r: Seq<StateGroup>) -> Seq<Seq<char>> {
    r.map_values(|g: StateGroup| g@.state)
}

/// Builds the sidebar's state groups from the tickets that pass the filters:
/// the states of the schema order first, in that order, then the other
/// states in code-point order; each group counts its tickets and lists the
/// ids of those with no `depends_on` parent in the same group.
pub fn build_state_groups(
    tickets: &[TicketSummary],
    edges: &[EdgeRecord],
    state_order: &[String],
    state_filter: &str,
    query: &str,
) -> (r: Vec<StateGroup>)
    ensures
        group_order_ok(
            group_states(r@),
            string_views(state_order@),
            visible_spec(ticket_views(tickets@), state_filter@, query@),
        ),
        forall|i: int|
            0 <= i < r@.len() ==> #[trigger] r@[i]@ == group_of(
                visible_spec(ticket_views(tickets@), state_filter@, query@),
                edge_views(edges@),
                ticket_views(tickets@),
                r@[i]@.state,
            ),
{
    let ghost tv = ticket_views(tickets@);
    let ghost es = edge_views(edges@);
    let ghost order = string_views(state_order@);
    let maps = DependencyMaps::build(tickets, edges);
    let vis_idx = filter_indices(tickets, state_filter, query);
    proof {
        lemma_matching_visible(tv, state_filter@, query@, vis_idx@);
    }
    let ghost vis = pick(tv, vis_idx@);
    let ghost present = states_of(vis);
    let mut result: Vec<StateGroup> = Vec::new();
    let mut j: usize = 0;
    assert(order.subrange(0, 0) =~= Seq::<Seq<char>>::empty());
    assert(group_states(result@) =~= Seq::<Seq<char>>::empty());
    while j < state_order.len()
        invariant
            j <= state_order@.len(),
            tv == ticket_views(tickets@),
            es == edge_views(edges@),
            order == string_views(state_order@),
            vis == pick(tv, vis_idx@),
            present == states_of(vis),
            forall|k: int| 0 <= k < vis_idx@.len() ==> vis_idx@[k] < tickets@.len(),
            lists_agree(maps.parent_of@, |k: Seq<char>| sources_of(es, tv, k)),
            group_states(result@) == schema_states(order.subrange(0, j as int), present),
            forall|i: int| 0 <= i < result@.len() ==> #[trigger] result@[i]@ == group_of(vis, es, tv, result@[i]@.state),
        decreases state_order@.len() - j,
    {
        let ghost sub = order.subrange(0, j + 1);
        assert(sub.drop_last() =~= order.subrange(0, j as int));
        assert(sub.last() == state_order@[j as int]@);
        let s = state_order[j].as_str();
        let here = any_in_state(tickets, &vis_idx, s);
        let earlier = order_has(state_order, j, s);
        if here && !earlier {
            let g = make_group(tickets, edges, &maps, &vis_idx, s);
            let ghost before = result@;
            result.push(g);
            assert(group_states(result@) =~= group_states(before).push(s@));
        }
        j = j + 1;
    }
    assert(order.subrange(0, state_order@.len() as int) =~= order);
    let ghost sch = schema_states(order, present);
    let mut extras: Vec<Vec<char>> = Vec::new();
    let mut k: usize = 0;
    assert(vec_views(extras@).to_set() =~= Set::<Seq<char>>::empty());
    while k < vis_idx.len()
        invariant
            k <= vis_idx@.len(),
            tv == ticket_views(tickets@),
            order == string_views(state_order@),
            vis == pick(tv, vis_idx@),
            forall|k: int| 0 <= k < vis_idx@.len() ==> vis_idx@[k] < tickets@.len(),
            strictly_sorted(vec_views(extras@)),
            vec_views(extras@).to_set() == Set::new(
                |x: Seq<char>| exists|q: int| 0 <= q < k && vis[q].state == x && !order.contains(x),
            ),
        decreases vis_idx@.len() - k,
    {
        let st = tickets[vis_idx[k]].state.as_str();
        assert(st@ == vis[k as int].state);
        assert(order.subrange(0, state_order@.len() as int) =~= order);
        let listed = order_has(state_order, state_order.len(), st);
        let ghost before = vec_views(extras@).to_set();
        if !listed {
            insert_token(&mut extras, chars_of(st));
        }
        assert(vec_views(extras@).to_set() =~= Set::new(
            |x: Seq<char>| exists|q: int| 0 <= q < k + 1 && vis[q].state == x && !order.contains(x),
        )) by {
            assert forall|x: Seq<char>|
                vec_views(extras@).to_set().contains(x) <==> exists|q: int| 0 <= q < k + 1 && vis[q].state == x && !order.contains(x) by {
                if before.contains(x) {
                    let q = choose|q: int| 0 <= q < k && vis[q].state == x && !order.contains(x);
                    assert(0 <= q < k + 1 && vis[q].state == x && !order.contains(x));
                }
                if exists|q: int| 0 <= q < k + 1 && vis[q].state == x && !order.contains(x) {
                    let q = choose|q: int| 0 <= q < k + 1 && vis[q].state == x && !order.contains(x);
                    if q < k {
                        assert(before.contains(x));
                    }
                }
            }
        }
        k = k + 1;
    }
    let ghost ex = vec_views(extras@);
    assert(ex.to_set() =~= present.difference(order.to_set())) by {
        assert forall|x: Seq<char>| ex.to_set().contains(x) <==> present.difference(order.to_set()).contains(x) by {
            let sts = vis.map_values(|t: TicketView| t.state);
            if ex.to_set().contains(x) {
                let q = choose|q: int| 0 <= q < vis_idx@.len() && vis[q].state == x && !order.contains(x);
                assert(sts[q] == x);
            }
            if present.difference(order.to_set()).contains(x) {
                let q = choose|q: int| 0 <= q < sts.len() && #[trigger] sts[q] == x;
                assert(vis[q].state == x);
            }
        }
    }
    let mut e: usize = 0;
    let ghost slen = result@.len();
    while e < extras.len()
        invariant
            e <= extras@.len(),
            tv == ticket_views(tickets@),
            es == edge_views(edges@),
            vis == pick(tv, vis_idx@),
            ex == vec_views(extras@),
            forall|k: int| 0 <= k < vis_idx@.len() ==> vis_idx@[k] < tickets@.len(),
            lists_agree(maps.parent_of@, |k: Seq<char>| sources_of(es, tv, k)),
            slen == sch.len(),
            group_states(result@) == sch + ex.subrange(0, e as int),
            forall|i: int| 0 <= i < result@.len() ==> #[trigger] result@[i]@ == group_of(vis, es, tv, result@[i]@.state),
        decreases extras@.len() - e,
    {
        let name = string_of(extras[e].as_slice());
        let g = make_group(tickets, edges, &maps, &vis_idx, name.as_str());
        let ghost before = result@;
        result.push(g);
        assert(group_states(result@) =~= group_states(before).push(ex[e as int]));
        assert(ex.subrange(0, e + 1) =~= ex.subrange(0, e as int).push(ex[e as int]));
        e = e + 1;
    }
    assert(ex.subrange(0, extras@.len() as int) =~= ex);
    let ghost gs = group_states(result@);
    assert(gs.subrange(0, sch.len() as int) =~= sch);
    assert(gs.subrange(sch.len() as int, gs.len() as int) =~= ex);
    result
}


/// The dependency lookups are inverse to each other: `b` is among what `a`

/// How many times `x` occurs in `s`.
pub open spec fn occurrences(s: Seq<Seq<char>>, x: Seq<char>) -> nat
    decreases s.len(),
{
    if s.len() == 0 {
        0
    } else {
        occurrences(s.drop_last(), x) + if s.last() == x { 1nat } else { 0nat }
    }
}

/// How many dependency edges between known tickets run from `a` to `b`.
pub open spec fn dep_edge_count(es: Seq<EdgeView>, ts: Seq<TicketView>, a: Seq<char>, b: Seq<char>) -> nat
    decreases es.len(),
{
    if es.len() == 0 {
        0
    } else {
        let e = es.last();
        dep_edge_count(es.drop_last(), ts, a, b) + if dep_edge(e, ts) && e.from == a && e.to == b { 1nat } else { 0nat }
    }
}

/// The dependency lookups count each edge once on both sides: `b` occurs
/// under `a` in what `a` depends on exactly as often as `a` occurs under
/// `b` in what depends on `b`, and that is the number of dependency edges
/// from `a` to `b` between known tickets.
pub proof fn lemma_dependency_maps_count(es: Seq<EdgeView>, ts: Seq<TicketView>, a: Seq<char>, b: Seq<char>)
    ensures
        occurrences(targets_of(es, ts, a), b) == dep_edge_count(es, ts, a, b),
        occurrences(sources_of(es, ts, b), a) == dep_edge_count(es, ts, a, b),
    decreases es.len(),
{
    if es.len() > 0 {
        lemma_dependency_maps_count(es.drop_last(), ts, a, b);
        let pt = targets_of(es.drop_last(), ts, a);
        let ps = sources_of(es.drop_last(), ts, b);
        let e = es.last();
        assert(pt.push(e.to).drop_last() =~= pt);
        assert(ps.push(e.from).drop_last() =~= ps);
    }
}

/// depends on exactly when `a` is among what depends on `b`.
pub proof fn lemma_dependency_maps_inverse(es: Seq<EdgeView>, ts: Seq<TicketView>, a: Seq<char>, b: Seq<char>)
    ensures
        targets_of(es, ts, a).contains(b) <==> sources_of(es, ts, b).contains(a),
    decreases es.len(),
{
    if es.len() > 0 {
        lemma_dependency_maps_inverse(es.drop_last(), ts, a, b);
        let pt = targets_of(es.drop_last(), ts, a);
        let ps = sources_of(es.drop_last(), ts, b);
        let e = es.last();
        if dep_edge(e, ts) && e.from == a {
            assert(pt.push(e.to).contains(b) <==> (pt.contains(b) || e.to == b)) by {
                if pt.push(e.to).contains(b) {
                    let k = choose|k: int| 0 <= k < pt.push(e.to).len() && pt.push(e.to)[k] == b;
                    if k < pt.len() {
                        assert(pt[k] == b);
                    }
                }
                if pt.contains(b) {
                    let k = choose|k: int| 0 <= k < pt.len() && pt[k] == b;
                    assert(pt.push(e.to)[k] == b);
                }
                if e.to == b {
                    assert(pt.push(e.to)[pt.len() as int] == b);
                }
            }
        }
        if dep_edge(e, ts) && e.to == b {
            assert(ps.push(e.from).contains(a) <==> (ps.contains(a) || e.from == a)) by {
                if ps.push(e.from).contains(a) {
                    let k = choose|k: int| 0 <= k < ps.push(e.from).len() && ps.push(e.from)[k] == a;
                    if k < ps.len() {
                        assert(ps[k] == a);
                    }
                }
                if ps.contains(a) {
                    let k = choose|k: int| 0 <= k < ps.len() && ps[k] == a;
                    assert(ps.push(e.from)[k] == a);
                }
                if e.from == a {
                    assert(ps.push(e.from)[ps.len() as int] == a);
                }
            }
        }
    }
}

/// With no state filter and no query, every ticket matches.
pub proof fn lemma_empty_filters_match_all(t: TicketView)
    ensures
        matches_spec(t, Seq::empty(), Seq::empty()),
{
}

/// The schema states of the groups are the schema states that some visible
/// ticket has.
proof fn lemma_schema_states_set(order: Seq<Seq<char>>, present: Set<Seq<char>>)
    ensures
        schema_states(order, present).to_set() == present.intersect(order.to_set()),
        schema_states(order, present).no_duplicates(),
    decreases order.len(),
{
    if order.len() == 0 {
        assert(schema_states(order, present).to_set() =~= present.intersect(order.to_set()));
    } else {
        let prev = schema_states(order.drop_last(), present);
        lemma_schema_states_set(order.drop_last(), present);
        let s = order.last();
        assert(order.to_set() =~= order.drop_last().to_set().insert(s)) by {
            crate::auth::lemma_push_to_set(order.drop_last(), s);
            assert(order.drop_last().push(s) =~= order);
        }
        if present.contains(s) && !order.drop_last().contains(s) {
            crate::auth::lemma_push_to_set(prev, s);
            assert(!prev.contains(s)) by {
                if prev.contains(s) {
                    assert(prev.to_set().contains(s));
                    assert(order.drop_last().to_set().contains(s));
                }
            }
            assert(prev.push(s).no_duplicates()) by {
                assert forall|i: int, j: int| 0 <= i < prev.push(s).len() && 0 <= j < prev.push(s).len() && i != j
                    implies prev.push(s)[i] != prev.push(s)[j] by {
                    if i == prev.len() {
                        assert(prev[j] != s) by {
                            if prev[j] == s {
                                assert(prev.contains(s));
                            }
                        }
                    } else if j == prev.len() {
                        assert(prev[i] != s) by {
                            if prev[i] == s {
                                assert(prev.contains(s));
                            }
                        }
                    }
                }
            }
            assert(prev.push(s).to_set() =~= present.intersect(order.to_set()));
        } else {
            assert(prev.to_set() =~= present.intersect(order.to_set())) by {
                if present.contains(s) {
                    assert(order.drop_last().contains(s));
                    let k = choose|k: int| 0 <= k < order.drop_last().len() && order.drop_last()[k] == s;
                    assert(order.drop_last().to_set().contains(s));
                }
            }
        }
    }
}

/// The groups cover the states of the visible tickets, each state once.
/// Without a schema order the groups come in code-point order of their
/// states.
pub proof fn lemma_group_states(states: Seq<Seq<char>>, order: Seq<Seq<char>>, vis: Seq<TicketView>)
    requires
        group_order_ok(states, order, vis),
    ensures
        states.to_set() == states_of(vis),
        states.no_duplicates(),
        order.len() == 0 ==> strictly_sorted(states),
{
    let present = states_of(vis);
    let sch = schema_states(order, present);
    let rest = states.subrange(sch.len() as int, states.len() as int);
    lemma_schema_states_set(order, present);
    assert(states =~= sch + rest);
    assert forall|x: Seq<char>| states.to_set().contains(x) <==> present.contains(x) by {
        if states.contains(x) {
            let k = choose|k: int| 0 <= k < states.len() && states[k] == x;
            if k < sch.len() {
                assert(sch[k] == x);
                assert(sch.to_set().contains(x));
            } else {
                assert(rest[k - sch.len()] == x);
                assert(rest.to_set().contains(x));
            }
        }
        if present.contains(x) {
            if order.to_set().contains(x) {
                assert(sch.to_set().contains(x));
                let k = choose|k: int| 0 <= k < sch.len() && sch[k] == x;
                assert(states[k] == x);
            } else {
                assert(rest.to_set().contains(x));
                let k = choose|k: int| 0 <= k < rest.len() && rest[k] == x;
                assert(states[k + sch.len()] == x);
            }
        }
    }
    assert(states.to_set() =~= present);
    assert forall|i: int, j: int| 0 <= i < states.len() && 0 <= j < states.len() && i != j implies states[i] != states[j] by {
        if i < sch.len() && j < sch.len() {
            assert(sch[i] != sch[j]);
        } else if i >= sch.len() && j >= sch.len() {
            let a = i - sch.len();
            let b = j - sch.len();
            crate::workflow::order::lemma_order_chars(rest[a], rest[b]);
            if a < b {
                assert(crate::workflow::order::order_chars(rest[a], rest[b]) < 0);
            } else {
                assert(crate::workflow::order::order_chars(rest[b], rest[a]) < 0);
            }
        } else {
            let (k, l) = if i < sch.len() { (i, j) } else { (j, i) };
            assert(sch.to_set().contains(sch[k]));
            assert(order.to_set().contains(sch[k]));
            assert(rest.to_set().contains(rest[l - sch.len()]));
            assert(!order.to_set().contains(rest[l - sch.len()]));
        }
    }
    if order.len() == 0 {
        assert(sch.len() == 0);
        assert(rest =~= states);
    }
}

/// The tickets of `vis` in one of the states `ss`.
pub open spec fn count_in_states(vis: Seq<TicketView>, ss: Seq<Seq<char>>) -> nat
    decreases vis.len(),
{
    if vis.len() == 0 {
        0
    } else {
        count_in_states(vis.drop_last(), ss) + if ss.contains(vis.last().state) { 1nat } else { 0nat }
    }
}

/// The sizes of the buckets of the states `ss`, added up.
pub open spec fn sum_buckets(vis: Seq<TicketView>, ss: Seq<Seq<char>>) -> nat
    decreases ss.len(),
{
    if ss.len() == 0 {
        0
    } else {
        sum_buckets(vis, ss.drop_last()) + bucket_spec(vis, ss.last()).len()
    }
}

/// The totals of some groups, added up.
pub open spec fn group_total_sum(r: Seq<StateGroup>) -> nat
    decreases r.len(),
{
    if r.len() == 0 {
        0
    } else {
        group_total_sum(r.drop_last()) + r.last()@.total
    }
}

proof fn lemma_bucket_step(vis: Seq<TicketView>, s: Seq<char>)
    requires
        vis.len() > 0,
    ensures
        bucket_spec(vis, s).len() == bucket_spec(vis.drop_last(), s).len() + if vis.last().state == s { 1nat } else { 0nat },
{
    reveal_with_fuel(Seq::filter, 1);
}

/// Adding one ticket adds one to the bucket sum exactly when its state is
/// one of `ss` (listed once).
proof fn lemma_sum_buckets_step(vis: Seq<TicketView>, ss: Seq<Seq<char>>)
    requires
        vis.len() > 0,
        ss.no_duplicates(),
    ensures
        sum_buckets(vis, ss) == sum_buckets(vis.drop_last(), ss) + if ss.contains(vis.last().state) { 1nat } else { 0nat },
    decreases ss.len(),
{
    if ss.len() > 0 {
        let init = ss.drop_last();
        assert(init.no_duplicates()) by {
            assert forall|i: int, j: int| 0 <= i < init.len() && 0 <= j < init.len() && i != j implies init[i] != init[j] by {
                assert(ss[i] == init[i] && ss[j] == init[j]);
            }
        }
        lemma_sum_buckets_step(vis, init);
        lemma_bucket_step(vis, ss.last());
        let x = vis.last().state;
        if ss.last() == x {
            assert(!init.contains(x)) by {
                if init.contains(x) {
                    let k = choose|k: int| 0 <= k < init.len() && init[k] == x;
                    assert(ss[k] == ss[ss.len() - 1]);
                }
            }
            assert(ss.contains(x)) by { assert(ss[ss.len() - 1] == x); }
        } else {
            assert(ss.contains(x) == init.contains(x)) by {
                if ss.contains(x) {
                    let k = choose|k: int| 0 <= k < ss.len() && ss[k] == x;
                    assert(init[k] == x);
                }
                if init.contains(x) {
                    let k = choose|k: int| 0 <= k < init.len() && init[k] == x;
                    assert(ss[k] == x);
                }
            }
        }
    }
}

proof fn lemma_sum_buckets_count(vis: Seq<TicketView>, ss: Seq<Seq<char>>)
    requires
        ss.no_duplicates(),
    ensures
        sum_buckets(vis, ss) == count_in_states(vis, ss),
    decreases vis.len(),
{
    if vis.len() > 0 {
        lemma_sum_buckets_count(vis.drop_last(), ss);
        lemma_sum_buckets_step(vis, ss);
    } else {
        lemma_sum_buckets_empty(vis, ss);
    }
}

proof fn lemma_sum_buckets_empty(vis: Seq<TicketView>, ss: Seq<Seq<char>>)
    requires
        vis.len() == 0,
    ensures
        sum_buckets(vis, ss) == 0,
    decreases ss.len(),
{
    reveal_with_fuel(Seq::filter, 1);
    if ss.len() > 0 {
        lemma_sum_buckets_empty(vis, ss.drop_last());
    }
}

proof fn lemma_count_all_states(vis: Seq<TicketView>, ss: Seq<Seq<char>>)
    requires
        forall|x: Seq<char>| states_of(vis).contains(x) ==> ss.contains(x),
    ensures
        count_in_states(vis, ss) == vis.len(),
    decreases vis.len(),
{
    if vis.len() > 0 {
        let init = vis.drop_last();
        let f = |t: TicketView| t.state;
        assert forall|x: Seq<char>| states_of(init).contains(x) implies ss.contains(x) by {
            let k = choose|k: int| 0 <= k < init.map_values(f).len() && init.map_values(f)[k] == x;
            assert(vis.map_values(f)[k] == x);
            assert(vis.map_values(f).contains(x));
        }
        lemma_count_all_states(init, ss);
        assert(vis.map_values(f)[vis.len() - 1] == vis.last().state);
        assert(vis.map_values(f).contains(vis.last().state));
        assert(states_of(vis).contains(vis.last().state));
    }
}

proof fn lemma_group_sum_buckets(r: Seq<StateGroup>, vis: Seq<TicketView>, es: Seq<EdgeView>, tv: Seq<TicketView>)
    requires
        forall|i: int| 0 <= i < r.len() ==> #[trigger] r[i]@ == group_of(vis, es, tv, r[i]@.state),
    ensures
        group_total_sum(r) == sum_buckets(vis, group_states(r)),
    decreases r.len(),
{
    if r.len() > 0 {
        let init = r.drop_last();
        assert forall|i: int| 0 <= i < init.len() implies #[trigger] init[i]@ == group_of(vis, es, tv, init[i]@.state) by {
            assert(init[i] == r[i]);
        }
        lemma_group_sum_buckets(init, vis, es, tv);
        assert(group_states(r).drop_last() =~= group_states(init));
        assert(r[r.len() - 1] == r.last());
    }
}

/// The group totals add up to the number of visible tickets (those that
/// pass the state filter and the query): every visible ticket is counted in
/// exactly one group.
pub proof fn lemma_group_totals(r: Seq<StateGroup>, order: Seq<Seq<char>>, vis: Seq<TicketView>, es: Seq<EdgeView>, tv: Seq<TicketView>)
    requires
        group_order_ok(group_states(r), order, vis),
        forall|i: int| 0 <= i < r.len() ==> #[trigger] r[i]@ == group_of(vis, es, tv, r[i]@.state),
    ensures
        group_total_sum(r) == vis.len(),
{
    let ss = group_states(r);
    lemma_group_states(ss, order, vis);
    lemma_group_sum_buckets(r, vis, es, tv);
    lemma_sum_buckets_count(vis, ss);
    assert forall|x: Seq<char>| states_of(vis).contains(x) implies ss.contains(x) by {
        assert(ss.to_set().contains(x));
    }
    lemma_count_all_states(vis, ss);
}

} // verus!
