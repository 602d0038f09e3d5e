//! The status dashboard: tickets sorted into active, ready and blocked work,
//! with the blockers each waits on and the ready work grouped by component.
use vstd::prelude::*;
use crate::text::{str_eq, starts_with, is_prefix};
use crate::workflow::{IndexedTicket, TicketView, EdgeRecord, EdgeView, opt_view, clone_opt_string, tickets_view, edges_view};
use crate::human::{hex_digits, push_hex};

verus! {

/// The states of finished work.
pub open spec fn is_done_state(s: Seq<char>) -> bool {
    s == "done"@ || s == "cancelled"@
}

/// The states of work in progress.
pub open spec fn is_active_state(s: Seq<char>) -> bool {
    s == "planned"@ || s == "in-implementation"@ || s == "in-review"@
}

/// The states of paused work.
pub open spec fn is_paused_state(s: Seq<char>) -> bool {
    s == "on-hold"@
}

fn done_state(s: &str) -> (r: bool)
    ensures
        r == is_done_state(s@),
{
    str_eq(s, "done") || str_eq(s, "cancelled")
}

fn active_state(s: &str) -> (r: bool)
    ensures
        r == is_active_state(s@),
{
    str_eq(s, "planned") || str_eq(s, "in-implementation") || str_eq(s, "in-review")
}

fn paused_state(s: &str) -> (r: bool)
    ensures
        r == is_paused_state(s@),
{
    str_eq(s, "on-hold")
}

/// A ticket's title, empty when it has none.
pub open spec fn title_or_empty(t: TicketView) -> Seq<char> {
    match t.title {
        Some(x) => x,
        None => Seq::empty(),
    }
}

/// Whether a ticket passes the title filter: its title starts with it.
pub open spec fn passes_filter(filter: Option<Seq<char>>, t: TicketView) -> bool {
    match filter {
        Some(p) => is_prefix(p, title_or_empty(t)),
        None => true,
    }
}

/// The characters of an optional string slice.
pub open spec fn opt_str_view(o: Option<&str>) -> Option<Seq<char>> {
    match o {
        Some(p) => Some(p@),
        None => None,
    }
}

/// The tickets that pass the title filter, in order.
pub open spec fn kept_tickets(ts: Seq<TicketView>, filter: Option<Seq<char>>) -> Seq<TicketView>
    decreases ts.len(),
{
    if ts.len() == 0 {
        Seq::empty()
    } else {
        let prev = kept_tickets(ts.drop_last(), filter);
        if passes_filter(filter, ts.last()) {
            prev.push(ts.last())
        } else {
            prev
        }
    }
}

/// The tickets whose title starts with the filter (all of them without
/// one), in order.
pub fn filtered_tickets(tickets: Vec<IndexedTicket>, filter: Option<&str>) -> (r: Vec<IndexedTicket>)
    ensures
        tickets_view(r@) == kept_tickets(tickets_view(tickets@), opt_str_view(filter)),
{
    let ghost tv = tickets_view(tickets@);
    let mut out: Vec<IndexedTicket> = Vec::new();
    let mut i: usize = 0;
    assert(tv.subrange(0, 0) =~= Seq::<TicketView>::empty());
    assert(tickets_view(out@) =~= Seq::<TicketView>::empty());
    while i < tickets.len()
        invariant
            i <= tickets@.len(),
            tv == tickets_view(tickets@),
            tickets_view(out@) == kept_tickets(tv.subrange(0, i as int), opt_str_view(filter)),
        decreases tickets@.len() - i,
    {
        let ghost sub = tv.subrange(0, i + 1);
        assert(sub.drop_last() =~= tv.subrange(0, i as int));
        assert(sub.last() == tickets@[i as int]@);
        let ghost before = tickets_view(out@);
        let t = &tickets[i];
        let keep = match filter {
            Some(p) => match &t.title {
                Some(title) => starts_with(title.as_str(), p),
                None => {
                    proof {
                        reveal_strlit("");
                    }
                    assert(""@ =~= Seq::<char>::empty());
                    starts_with("", p)
                },
            },
            None => true,
        };
        assert(keep == passes_filter(opt_str_view(filter), tickets@[i as int]@));
        if keep {
            out.push(t.duplicate());
            assert(tickets_view(out@) =~= before.push(tickets@[i as int]@));
        }
        i = i + 1;
    }
    assert(tv.subrange(0, tickets@.len() as int) =~= tv);
    out
}

/// A ticket's state, `open` when it has none.
pub open spec fn state_or_open(t: TicketView) -> Seq<char> {
    match t.state {
        Some(s) => s,
        None => "open"@,
    }
}

/// Whether a ticket is finished: it has a finished state.
pub open spec fn ticket_done(t: TicketView) -> bool {
    match t.state {
        Some(s) => is_done_state(s),
        None => false,
    }
}

/// The ids of the finished tickets, in order.
pub open spec fn done_ids_spec(ts: Seq<TicketView>) -> Seq<u128>
    decreases ts.len(),
{
    if ts.len() == 0 {
        Seq::empty()
    } else {
        let prev = done_ids_spec(ts.drop_last());
        if ticket_done(ts.last()) {
            prev.push(ts.last().id)
        } else {
            prev
        }
    }
}

/// The ids of the finished tickets (see `done_ids_spec`).
pub fn done_ticket_ids(tickets: &[IndexedTicket]) -> (r: Vec<u128>)
    ensures
        r@ == done_ids_spec(tickets_view(tickets@)),
{
    let ghost tv = tickets_view(tickets@);
    let mut out: Vec<u128> = Vec::new();
    let mut i: usize = 0;
    assert(tv.subrange(0, 0) =~= Seq::<TicketView>::empty());
    while i < tickets.len()
        invariant
            i <= tickets@.len(),
            tv == tickets_view(tickets@),
            out@ == done_ids_spec(tv.subrange(0, i as int)),
        decreases tickets@.len() - i,
    {
        let ghost sub = tv.subrange(0, i + 1);
        assert(sub.drop_last() =~= tv.subrange(0, i as int));
        assert(sub.last() == tickets@[i as int]@);
        let done = match &tickets[i].state {
            Some(s) => done_state(s.as_str()),
            None => false,
        };
        if done {
            out.push(tickets[i].id);
        }
        i = i + 1;
    }
    assert(tv.subrange(0, tickets@.len() as int) =~= tv);
    out
}

/// Whether an edge blocks its source: a dependency on an unfinished ticket.
pub open spec fn blocking_edge(done: Seq<u128>, e: EdgeView) -> bool {
    e.kind == "depends_on"@ && !done.contains(e.to)
}

/// The unfinished tickets that `id` depends on, in edge order.
pub open spec fn blockers_of(es: Seq<EdgeView>, done: Seq<u128>, id: u128) -> Seq<u128>
    decreases es.len(),
{
    if es.len() == 0 {
        Seq::empty()
    } else {
        let prev = blockers_of(es.drop_last(), done, id);
        if blocking_edge(done, es.last()) && es.last().from == id {
            prev.push(es.last().to)
        } else {
            prev
        }
    }
}

/// The blockers a table records for `id`: those of its first entry for
/// `id`, none when it has no entry.
pub open spec fn blockers_for(table: Seq<(u128, Vec<u128>)>, id: u128) -> Seq<u128>
    decreases table.len(),
{
    if table.len() == 0 {
        Seq::empty()
    } else if table[0].0 == id {
        table[0].1@
    } else {
        blockers_for(table.drop_first(), id)
    }
}


/// The distinct keys of a blocker table.
pub open spec fn table_keys(table: Seq<(u128, Vec<u128>)>) -> Seq<u128> {
    table.map_values(|p: (u128, Vec<u128>)| p.0)
}

fn contains_u128(v: &[u128], x: u128) -> (r: bool)
    ensures
        r == v@.contains(x),
{
    let mut i: usize = 0;
    while i < v.len()
        invariant
            i <= v@.len(),
            forall|j: int| 0 <= j < i ==> v@[j] != x,
        decreases v@.len() - i,
    {
        if v[i] == x {
            assert(v@[i as int] == x);
            return true;
        }
        i = i + 1;
    }
    false
}

proof fn lemma_blockers_for_update(table: Seq<(u128, Vec<u128>)>, k: int, nv: Vec<u128>, id: u128)
    requires
        0 <= k < table.len(),
        table_keys(table).no_duplicates(),
    ensures
        blockers_for(table.update(k, (table[k].0, nv)), id) == if table[k].0 == id {
            nv@
        } else {
            blockers_for(table, id)
        },
    decreases table.len(),
{
    let up = table.update(k, (table[k].0, nv));
    assert(up[0].0 == table[0].0);
    if k == 0 {
        assert(up.drop_first() =~= table.drop_first());
    } else {
        let t2 = table.drop_first();
        assert(up[0] == table[0]);
        assert(table_keys(t2).no_duplicates()) by {
            assert forall|i: int, j: int| 0 <= i < t2.len() && 0 <= j < t2.len() && i != j implies table_keys(t2)[i]
                != table_keys(t2)[j] by {
                assert(table_keys(table)[i + 1] != table_keys(table)[j + 1]);
            }
        }
        lemma_blockers_for_update(t2, k - 1, nv, id);
        assert(table.update(k, (table[k].0, nv)).drop_first() =~= t2.update(k - 1, (table[k].0, nv)));
        if table[0].0 == id && table[k].0 == id {
            assert(table_keys(table)[0] != table_keys(table)[k]);
        }
    }
}

proof fn lemma_blockers_for_push(table: Seq<(u128, Vec<u128>)>, key: u128, nv: Vec<u128>, id: u128)
    requires
        !table_keys(table).contains(key),
    ensures
        blockers_for(table.push((key, nv)), id) == if key == id && !table_keys(table).contains(id) {
            nv@
        } else {
            blockers_for(table, id)
        },
    decreases table.len(),
{
    let pt = table.push((key, nv));
    if table.len() > 0 {
        let t2 = table.drop_first();
        assert(pt[0] == table[0]);
        assert(pt.drop_first() =~= t2.push((key, nv)));
        assert(!table_keys(t2).contains(key)) by {
            if table_keys(t2).contains(key) {
                let j = choose|j: int| 0 <= j < t2.len() && table_keys(t2)[j] == key;
                assert(table_keys(table)[j + 1] == key);
            }
        }
        lemma_blockers_for_push(t2, key, nv, id);
        if table[0].0 != id {
            assert(table_keys(table).contains(id) <==> table_keys(t2).contains(id)) by {
                if table_keys(table).contains(id) {
                    let j = choose|j: int| 0 <= j < table.len() && table_keys(table)[j] == id;
                    assert(j > 0);
                    assert(table_keys(t2)[j - 1] == id);
                }
                if table_keys(t2).contains(id) {
                    let j = choose|j: int| 0 <= j < t2.len() && table_keys(t2)[j] == id;
                    assert(table_keys(table)[j + 1] == id);
                }
            }
            assert(blockers_for(pt, id) == blockers_for(pt.drop_first(), id));
            assert(blockers_for(table, id) == blockers_for(t2, id));
        } else {
            assert(table_keys(table)[0] == id);
            assert(table_keys(table).contains(id));
            assert(blockers_for(pt, id) == pt[0].1@);
            assert(blockers_for(table, id) == table[0].1@);
        }
    } else {
        assert(pt[0] == (key, nv));
        assert(pt.drop_first() =~= Seq::<(u128, Vec<u128>)>::empty());
        assert(table_keys(table) =~= Seq::<u128>::empty());
        if key != id {
            assert(blockers_for(pt, id) == blockers_for(pt.drop_first(), id));
        }
    }
}

proof fn lemma_blockers_for_missing(table: Seq<(u128, Vec<u128>)>, id: u128)
    requires
        !table_keys(table).contains(id),
    ensures
        blockers_for(table, id) == Seq::<u128>::empty(),
    decreases table.len(),
{
    if table.len() > 0 {
        assert(table_keys(table)[0] != id);
        let t2 = table.drop_first();
        assert(!table_keys(t2).contains(id)) by {
            if table_keys(t2).contains(id) {
                let j = choose|j: int| 0 <= j < t2.len() && table_keys(t2)[j] == id;
                assert(table_keys(table)[j + 1] == id);
            }
        }
        lemma_blockers_for_missing(t2, id);
    }
}

fn key_position(table: &Vec<(u128, Vec<u128>)>, id: u128) -> (r: Option<usize>)
    ensures
        match r {
            Some(k) => k < table@.len() && table@[k as int].0 == id,
            None => !table_keys(table@).contains(id),
        },
{
    let mut i: usize = 0;
    while i < table.len()
        invariant
            i <= table@.len(),
            forall|j: int| 0 <= j < i ==> table@[j].0 != id,
        decreases table@.len() - i,
    {
        if table[i].0 == id {
            return Some(i);
        }
        i = i + 1;
    }
    proof {
        if table_keys(table@).contains(id) {
            let j = choose|j: int| 0 <= j < table@.len() && table_keys(table@)[j] == id;
            assert(table@[j].0 == id);
        }
    }
    None
}

/// The unfinished dependencies of every ticket: one entry per depending
/// ticket, with its blockers in edge order.
pub fn unresolved_blockers(edges: &[EdgeRecord], done_ids: &[u128]) -> (r: Vec<(u128, Vec<u128>)>)
    ensures
        table_keys(r@).no_duplicates(),
        forall|id: u128| #[trigger] blockers_for(r@, id) == blockers_of(edges_view(edges@), done_ids@, id),
{
    let ghost ev = edges_view(edges@);
    let mut table: Vec<(u128, Vec<u128>)> = Vec::new();
    let mut i: usize = 0;
    assert(ev.subrange(0, 0) =~= Seq::<EdgeView>::empty());
    assert(table_keys(table@) =~= Seq::<u128>::empty());
    while i < edges.len()
        invariant
            i <= edges@.len(),
            ev == edges_view(edges@),
            table_keys(table@).no_duplicates(),
            forall|id: u128| #[trigger] blockers_for(table@, id) == blockers_of(ev.subrange(0, i as int), done_ids@, id),
        decreases edges@.len() - i,
    {
        let ghost sub = ev.subrange(0, i + 1);
        assert(sub.drop_last() =~= ev.subrange(0, i as int));
        assert(sub.last() == edges@[i as int]@);
        let e = &edges[i];
        let blocking = str_eq(e.kind.as_str(), "depends_on") && !contains_u128(done_ids, e.to);
        if blocking {
            let ghost t0 = table@;
            match key_position(&table, e.from) {
                Some(k) => {
                    let mut list = table[k].1.clone();
                    assert(list@ == t0[k as int].1@);
                    list.push(e.to);
                    let ghost nv = list;
                    table.set(k, (e.from, list));
                    proof {
                        assert(table@ == t0.update(k as int, (t0[k as int].0, nv)));
                        assert(table_keys(table@) =~= table_keys(t0));
                        assert forall|id: u128| #[trigger] blockers_for(table@, id) == blockers_of(sub, done_ids@, id) by {
                            lemma_blockers_for_update(t0, k as int, nv, id);
                            if id == e.from {
                                assert(blockers_for(t0, id) == t0[k as int].1@) by {
                                    lemma_blockers_first(t0, k as int);
                                }
                            }
                        }
                    }
                },
                None => {
                    let mut list: Vec<u128> = Vec::new();
                    list.push(e.to);
                    let ghost nv = list;
                    table.push((e.from, list));
                    proof {
                        assert(table@ == t0.push((e.from, nv)));
                        assert(table_keys(table@) =~= table_keys(t0).push(e.from));
                        assert forall|id: u128| #[trigger] blockers_for(table@, id) == blockers_of(sub, done_ids@, id) by {
                            lemma_blockers_for_push(t0, e.from, nv, id);
                            if id == e.from {
                                lemma_blockers_for_missing(t0, id);
                                assert(nv@ =~= Seq::<u128>::empty().push(e.to));
                            }
                        }
                        assert(table_keys(table@).no_duplicates()) by {
                            let tk = table_keys(table@);
                            assert forall|a: int, b: int| 0 <= a < tk.len() && 0 <= b < tk.len() && a != b implies tk[a]
                                != tk[b] by {
                                if a < t0.len() && b < t0.len() {
                                    assert(table_keys(t0)[a] != table_keys(t0)[b]);
                                } else if a < t0.len() {
                                    assert(table_keys(t0).contains(tk[a]));
                                } else if b < t0.len() {
                                    assert(table_keys(t0).contains(tk[b]));
                                }
                            }
                        }
                    }
                },
            }
        }
        i = i + 1;
    }
    assert(ev.subrange(0, edges@.len() as int) =~= ev);
    table
}

proof fn lemma_blockers_first(table: Seq<(u128, Vec<u128>)>, k: int)
    requires
        0 <= k < table.len(),
        table_keys(table).no_duplicates(),
    ensures
        blockers_for(table, table[k].0) == table[k].1@,
    decreases table.len(),
{
    if k > 0 {
        let t2 = table.drop_first();
        assert(table_keys(t2).no_duplicates()) by {
            assert forall|i: int, j: int| 0 <= i < t2.len() && 0 <= j < t2.len() && i != j implies table_keys(t2)[i]
                != table_keys(t2)[j] by {
                assert(table_keys(table)[i + 1] != table_keys(table)[j + 1]);
            }
        }
        assert(table_keys(table)[0] != table_keys(table)[k]);
        lemma_blockers_first(t2, k - 1);
    }
}

/// The hyphenated lower-case text of a UUID, as `uuid` writes one.
pub open spec fn uuid_text(id: u128) -> Seq<char> {
    hex_digits(id as nat / 0x1_0000_0000_0000_0000_0000_0000, 8) + "-"@ + hex_digits(
        id as nat / 0x1_0000_0000_0000_0000_0000,
        4,
    ) + "-"@ + hex_digits(id as nat / 0x1_0000_0000_0000_0000, 4) + "-"@ + hex_digits(
        id as nat / 0x1_0000_0000_0000,
        4,
    ) + "-"@ + hex_digits(id as nat, 12)
}

/// The hyphenated text of a UUID (see `uuid_text`).
pub fn uuid_string(id: u128) -> (r: String)
    ensures
        r@ == uuid_text(id),
{
    let mut out = String::new();
    push_hex(&mut out, id / 0x1_0000_0000_0000_0000_0000_0000, 8);
    out.append("-");
    push_hex(&mut out, id / 0x1_0000_0000_0000_0000_0000, 4);
    out.append("-");
    push_hex(&mut out, id / 0x1_0000_0000_0000_0000, 4);
    out.append("-");
    push_hex(&mut out, id / 0x1_0000_0000_0000, 4);
    out.append("-");
    push_hex(&mut out, id, 12);
    assert(out@ =~= uuid_text(id));
    out
}

/// The first ticket with a given id, if any.
pub open spec fn first_with_id(ts: Seq<TicketView>, id: u128) -> Option<TicketView>
    decreases ts.len(),
{
    if ts.len() == 0 {
        None
    } else if ts[0].id == id {
        Some(ts[0])
    } else {
        first_with_id(ts.drop_first(), id)
    }
}

/// How a blocker is shown: the title of the first ticket with its id (its
/// UUID when that ticket has none or there is no such ticket), and that
/// ticket's state (`unknown` likewise).
pub open spec fn dependency_metadata_spec(ts: Seq<TicketView>, id: u128) -> (Seq<char>, Seq<char>) {
    (
        match first_with_id(ts, id) {
            Some(t) => match t.title {
                Some(x) => x,
                None => uuid_text(id),
            },
            None => uuid_text(id),
        },
        match first_with_id(ts, id) {
            Some(t) => match t.state {
                Some(x) => x,
                None => "unknown"@,
            },
            None => "unknown"@,
        },
    )
}

fn first_ticket_with_id(tickets: &[IndexedTicket], id: u128) -> (r: Option<usize>)
    ensures
        match r {
            Some(k) => k < tickets@.len() && first_with_id(tickets_view(tickets@), id) == Some(tickets@[k as int]@),
            None => first_with_id(tickets_view(tickets@), id) is None,
        },
{
    let ghost tv = tickets_view(tickets@);
    let mut i: usize = 0;
    assert(tv.subrange(0, tv.len() as int) =~= tv);
    while i < tickets.len()
        invariant
            i <= tickets@.len(),
            tv == tickets_view(tickets@),
            first_with_id(tv, id) == first_with_id(tv.subrange(i as int, tv.len() as int), id),
        decreases tickets@.len() - i,
    {
        let ghost rest = tv.subrange(i as int, tv.len() as int);
        assert(rest[0] == tickets@[i as int]@);
        if tickets[i].id == id {
            return Some(i);
        }
        assert(rest.drop_first() =~= tv.subrange(i + 1, tv.len() as int));
        i = i + 1;
    }
    None
}

/// The title and state shown for a blocker (see `dependency_metadata_spec`).
pub fn dependency_metadata(ticket_id: u128, tickets: &[IndexedTicket]) -> (r: (String, String))
    ensures
        (r.0@, r.1@) == dependency_metadata_spec(tickets_view(tickets@), ticket_id),
{
    match first_ticket_with_id(tickets, ticket_id) {
        Some(k) => {
            let title = match &tickets[k].title {
                Some(x) => x.clone(),
                None => uuid_string(ticket_id),
            };
            let state = match &tickets[k].state {
                Some(x) => x.clone(),
                None => "unknown".to_string(),
            };
            (title, state)
        },
        None => (uuid_string(ticket_id), "unknown".to_string()),
    }
}

/// A ticket as a section of the dashboard lists it.
pub struct StatusEntry {
    pub id: u128,
    pub title: Option<String>,
    pub state: String,
    pub component: String,
}

/// What a [`StatusEntry`] holds.
pub struct StatusEntryView {
    pub id: u128,
    pub title: Option<Seq<char>>,
    pub state: Seq<char>,
    pub component: Seq<char>,
}

impl View for StatusEntry {
    type V = StatusEntryView;

    open spec fn view(&self) -> StatusEntryView {
        StatusEntryView { id: self.id, title: opt_view(self.title), state: self.state@, component: self.component@ }
    }
}

impl StatusEntry {
    /// A copy of the entry.
    pub fn duplicate(&self) -> (r: StatusEntry)
        ensures
            r@ == self@,
    {
        StatusEntry {
            id: self.id,
            title: clone_opt_string(&self.title),
            state: self.state.clone(),
            component: self.component.clone(),
        }
    }
}

/// A blocker a blocked ticket waits on.
pub struct WaitingOn {
    pub id: u128,
    pub title: String,
    pub state: String,
}

/// A blocked or paused ticket with what it waits on.
pub struct BlockedEntry {
    pub id: u128,
    pub title: Option<String>,
    pub state: String,
    pub waiting_on: Vec<WaitingOn>,
}

/// What a [`BlockedEntry`] holds.
pub struct BlockedView {
    pub id: u128,
    pub title: Option<Seq<char>>,
    pub state: Seq<char>,
    pub waiting_on: Seq<(u128, Seq<char>, Seq<char>)>,
}

impl View for BlockedEntry {
    type V = BlockedView;

    open spec fn view(&self) -> BlockedView {
        BlockedView {
            id: self.id,
            title: opt_view(self.title),
            state: self.state@,
            waiting_on: self.waiting_on@.map_values(|w: WaitingOn| (w.id, w.title@, w.state@)),
        }
    }
}

/// The dashboard's sections: work in progress, ready work, blocked or
/// paused work (when asked for), and the counts of finished and of all
/// tickets.
pub struct StatusSections {
    pub active: Vec<StatusEntry>,
    pub ready: Vec<StatusEntry>,
    pub blocked: Vec<BlockedEntry>,
    pub done_count: usize,
    pub total: usize,
}

/// What [`StatusSections`] hold.
pub struct SectionsView {
    pub active: Seq<StatusEntryView>,
    pub ready: Seq<StatusEntryView>,
    pub blocked: Seq<BlockedView>,
    pub done_count: nat,
    pub total: nat,
}

/// A ticket as a section lists it.
pub open spec fn entry_spec(t: TicketView) -> StatusEntryView {
    StatusEntryView { id: t.id, title: t.title, state: state_or_open(t), component: t.type_id }
}

/// The blockers of a ticket as shown: each with its title and state.
pub open spec fn waiting_spec(all: Seq<TicketView>, ids: Seq<u128>) -> Seq<(u128, Seq<char>, Seq<char>)> {
    ids.map_values(
        |id: u128|
            (id, dependency_metadata_spec(all, id).0, dependency_metadata_spec(all, id).1),
    )
}

/// The dashboard sections of some tickets: finished tickets are counted;
/// paused ones are listed as blocked with nothing to wait on; active ones
/// are in progress; the others are ready when nothing unfinished blocks
/// them, else blocked with their blockers. Blocked and paused tickets are
/// listed only when asked for.
pub open spec fn sections_spec(
    all: Seq<TicketView>,
    ts: Seq<TicketView>,
    table: Seq<(u128, Vec<u128>)>,
    show_blocked: bool,
) -> SectionsView
    decreases ts.len(),
{
    if ts.len() == 0 {
        SectionsView { active: Seq::empty(), ready: Seq::empty(), blocked: Seq::empty(), done_count: 0, total: 0 }
    } else {
        let p = sections_spec(all, ts.drop_last(), table, show_blocked);
        let t = ts.last();
        let s = state_or_open(t);
        let total = p.total + 1;
        if is_done_state(s) {
            SectionsView { active: p.active, ready: p.ready, blocked: p.blocked, done_count: p.done_count + 1, total }
        } else if is_paused_state(s) {
            SectionsView {
                active: p.active,
                ready: p.ready,
                blocked: if show_blocked {
                    p.blocked.push(BlockedView { id: t.id, title: t.title, state: s, waiting_on: Seq::empty() })
                } else {
                    p.blocked
                },
                done_count: p.done_count,
                total,
            }
        } else if is_active_state(s) {
            SectionsView { active: p.active.push(entry_spec(t)), ready: p.ready, blocked: p.blocked, done_count: p.done_count, total }
        } else if blockers_for(table, t.id).len() == 0 {
            SectionsView { active: p.active, ready: p.ready.push(entry_spec(t)), blocked: p.blocked, done_count: p.done_count, total }
        } else {
            SectionsView {
                active: p.active,
                ready: p.ready,
                blocked: if show_blocked {
                    p.blocked.push(
                        BlockedView {
                            id: t.id,
                            title: t.title,
                            state: s,
                            waiting_on: waiting_spec(all, blockers_for(table, t.id)),
                        },
                    )
                } else {
                    p.blocked
                },
                done_count: p.done_count,
                total,
            }
        }
    }
}

/// Every ticket lands in exactly one place on the dashboard: the counted
/// finished tickets, the work in progress and the ready work never exceed
/// the tickets, and when blocked work is listed, the four together are all
/// of them.
pub proof fn lemma_sections_counts(all: Seq<TicketView>, ts: Seq<TicketView>, table: Seq<(u128, Vec<u128>)>, show_blocked: bool)
    ensures
        sections_spec(all, ts, table, show_blocked).done_count + sections_spec(all, ts, table, show_blocked).active.len()
            + sections_spec(all, ts, table, show_blocked).ready.len() <= sections_spec(all, ts, table, show_blocked).total,
        sections_spec(all, ts, table, show_blocked).total == ts.len(),
        show_blocked ==> sections_spec(all, ts, table, show_blocked).done_count + sections_spec(all, ts, table, show_blocked).active.len()
            + sections_spec(all, ts, table, show_blocked).ready.len() + sections_spec(all, ts, table, show_blocked).blocked.len()
            == ts.len(),
    decreases ts.len(),
{
    if ts.len() > 0 {
        lemma_sections_counts(all, ts.drop_last(), table, show_blocked);
    }
}

/// The work-in-progress section lists, in ticket order, exactly the tickets
/// in state `planned`, `in-implementation` or `in-review`.
pub proof fn lemma_active_section(all: Seq<TicketView>, ts: Seq<TicketView>, table: Seq<(u128, Vec<u128>)>, show_blocked: bool)
    ensures
        sections_spec(all, ts, table, show_blocked).active == ts.filter(
            |t: TicketView|
                state_or_open(t) == "planned"@ || state_or_open(t) == "in-implementation"@ || state_or_open(t)
                    == "in-review"@,
        ).map_values(|t: TicketView| entry_spec(t)),
    decreases ts.len(),
{
    reveal(Seq::filter);
    reveal_strlit("done");
    reveal_strlit("cancelled");
    reveal_strlit("on-hold");
    reveal_strlit("planned");
    reveal_strlit("in-implementation");
    reveal_strlit("in-review");
    assert("done"@.len() == 4 && "cancelled"@.len() == 9 && "on-hold"@.len() == 7);
    assert("planned"@.len() == 7 && "in-implementation"@.len() == 17 && "in-review"@.len() == 9);
    assert("cancelled"@[0] == 'c' && "in-review"@[0] == 'i' && "on-hold"@[0] == 'o' && "planned"@[0] == 'p');
    assert("cancelled"@ != "in-review"@);
    assert("on-hold"@ != "planned"@);
    let f = |t: TicketView|
        state_or_open(t) == "planned"@ || state_or_open(t) == "in-implementation"@ || state_or_open(t) == "in-review"@;
    if ts.len() == 0 {
        assert(ts.filter(f).map_values(|t: TicketView| entry_spec(t)) =~= Seq::<StatusEntryView>::empty());
    } else {
        lemma_active_section(all, ts.drop_last(), table, show_blocked);
        let prev = ts.drop_last().filter(f);
        let t = ts.last();
        let s = state_or_open(t);
        if f(t) {
            assert(!is_done_state(s));
            assert(!is_paused_state(s));
            assert(is_active_state(s));
            assert(ts.filter(f) == prev.push(t));
            assert(prev.push(t).map_values(|t: TicketView| entry_spec(t)) =~= prev.map_values(|t: TicketView| entry_spec(t)).push(
                entry_spec(t),
            ));
        } else {
            assert(!is_active_state(s));
            assert(ts.filter(f) == prev);
        }
    }
}

/// The dashboard counts as finished exactly the tickets in state `done` or
/// `cancelled`, and lists as ready, in ticket order, exactly the tickets
/// that are neither finished, paused (`on-hold`) nor in progress and that
/// nothing unfinished blocks.
pub proof fn lemma_done_and_ready_sections(all: Seq<TicketView>, ts: Seq<TicketView>, table: Seq<(u128, Vec<u128>)>, show_blocked: bool)
    ensures
        sections_spec(all, ts, table, show_blocked).done_count == ts.filter(
            |t: TicketView| state_or_open(t) == "done"@ || state_or_open(t) == "cancelled"@,
        ).len(),
        sections_spec(all, ts, table, show_blocked).ready == ts.filter(
            |t: TicketView|
                !(state_or_open(t) == "done"@ || state_or_open(t) == "cancelled"@ || state_or_open(t) == "on-hold"@
                    || state_or_open(t) == "planned"@ || state_or_open(t) == "in-implementation"@ || state_or_open(t)
                    == "in-review"@) && blockers_for(table, t.id).len() == 0,
        ).map_values(|t: TicketView| entry_spec(t)),
    decreases ts.len(),
{
    reveal(Seq::filter);
    reveal_strlit("done");
    reveal_strlit("cancelled");
    reveal_strlit("on-hold");
    reveal_strlit("planned");
    reveal_strlit("in-implementation");
    reveal_strlit("in-review");
    assert("done"@.len() == 4 && "cancelled"@.len() == 9 && "on-hold"@.len() == 7);
    assert("planned"@.len() == 7 && "in-implementation"@.len() == 17 && "in-review"@.len() == 9);
    assert("cancelled"@[0] == 'c' && "in-review"@[0] == 'i' && "on-hold"@[0] == 'o' && "planned"@[0] == 'p');
    assert("cancelled"@ != "in-review"@);
    assert("on-hold"@ != "planned"@);
    let fd = |t: TicketView| state_or_open(t) == "done"@ || state_or_open(t) == "cancelled"@;
    let fr = |t: TicketView|
        !(state_or_open(t) == "done"@ || state_or_open(t) == "cancelled"@ || state_or_open(t) == "on-hold"@
            || state_or_open(t) == "planned"@ || state_or_open(t) == "in-implementation"@ || state_or_open(t)
            == "in-review"@) && blockers_for(table, t.id).len() == 0;
    if ts.len() == 0 {
        assert(ts.filter(fr).map_values(|t: TicketView| entry_spec(t)) =~= Seq::<StatusEntryView>::empty());
    } else {
        lemma_done_and_ready_sections(all, ts.drop_last(), table, show_blocked);
        let pd = ts.drop_last().filter(fd);
        let pr = ts.drop_last().filter(fr);
        let t = ts.last();
        if fd(t) {
            assert(ts.filter(fd) == pd.push(t));
        } else {
            assert(ts.filter(fd) == pd);
        }
        if fr(t) {
            assert(ts.filter(fr) == pr.push(t));
            assert(pr.push(t).map_values(|t: TicketView| entry_spec(t)) =~= pr.map_values(|t: TicketView| entry_spec(t)).push(
                entry_spec(t),
            ));
        } else {
            assert(ts.filter(fr) == pr);
        }
    }
}

fn state_text_of(t: &IndexedTicket) -> (r: &str)
    ensures
        r@ == state_or_open(t@),
{
    match &t.state {
        Some(s) => s.as_str(),
        None => "open",
    }
}

fn lookup_blockers(table: &Vec<(u128, Vec<u128>)>, id: u128) -> (r: Vec<u128>)
    ensures
        r@ == blockers_for(table@, id),
{
    let mut i: usize = 0;
    assert(table@.subrange(0, table@.len() as int) =~= table@);
    while i < table.len()
        invariant
            i <= table@.len(),
            blockers_for(table@, id) == blockers_for(table@.subrange(i as int, table@.len() as int), id),
        decreases table@.len() - i,
    {
        let ghost rest = table@.subrange(i as int, table@.len() as int);
        assert(rest[0] == table@[i as int]);
        if table[i].0 == id {
            return table[i].1.clone();
        }
        assert(rest.drop_first() =~= table@.subrange(i + 1, table@.len() as int));
        i = i + 1;
    }
    assert(table@.subrange(i as int, table@.len() as int) =~= Seq::<(u128, Vec<u128>)>::empty());
    Vec::new()
}

fn waiting_entries(ids: &Vec<u128>, tickets: &[IndexedTicket]) -> (r: Vec<WaitingOn>)
    ensures
        r@.map_values(|w: WaitingOn| (w.id, w.title@, w.state@)) == waiting_spec(tickets_view(tickets@), ids@),
{
    let mut out: Vec<WaitingOn> = Vec::new();
    let mut i: usize = 0;
    while i < ids.len()
        invariant
            i <= ids@.len(),
            out@.len() == i,
            forall|j: int|
                0 <= j < i ==> (#[trigger] out@[j]).id == ids@[j] && (out@[j].title@, out@[j].state@)
                    == dependency_metadata_spec(tickets_view(tickets@), ids@[j]),
        decreases ids@.len() - i,
    {
        let (title, state) = dependency_metadata(ids[i], tickets);
        out.push(WaitingOn { id: ids[i], title, state });
        i = i + 1;
    }
    assert(out@.map_values(|w: WaitingOn| (w.id, w.title@, w.state@)) =~= waiting_spec(tickets_view(tickets@), ids@));
    out
}

/// The views of some entries.
pub open spec fn entries_view(es: Seq<StatusEntry>) -> Seq<StatusEntryView> {
    es.map_values(|e: StatusEntry| e@)
}

/// The views of some blocked entries.
pub open spec fn blocked_view(es: Seq<BlockedEntry>) -> Seq<BlockedView> {
    es.map_values(|e: BlockedEntry| e@)
}

/// Sorts the tickets into the dashboard's sections (see `sections_spec`),
/// looking up each ticket's blockers in `blockers`.
pub fn status_sections(tickets: &[IndexedTicket], blockers: &Vec<(u128, Vec<u128>)>, show_blocked: bool) -> (r:
    StatusSections)
    ensures
        entries_view(r.active@) == sections_spec(tickets_view(tickets@), tickets_view(tickets@), blockers@, show_blocked).active,
        entries_view(r.ready@) == sections_spec(tickets_view(tickets@), tickets_view(tickets@), blockers@, show_blocked).ready,
        blocked_view(r.blocked@) == sections_spec(tickets_view(tickets@), tickets_view(tickets@), blockers@, show_blocked).blocked,
        r.done_count == sections_spec(tickets_view(tickets@), tickets_view(tickets@), blockers@, show_blocked).done_count,
        r.total == sections_spec(tickets_view(tickets@), tickets_view(tickets@), blockers@, show_blocked).total,
        r.done_count + r.active@.len() + r.ready@.len() <= r.total,
{
    let ghost all = tickets_view(tickets@);
    let mut active: Vec<StatusEntry> = Vec::new();
    let mut ready: Vec<StatusEntry> = Vec::new();
    let mut blocked: Vec<BlockedEntry> = Vec::new();
    let mut done_count: usize = 0;
    let mut total: usize = 0;
    let mut i: usize = 0;
    assert(all.subrange(0, 0) =~= Seq::<TicketView>::empty());
    assert(entries_view(active@) =~= Seq::<StatusEntryView>::empty());
    assert(entries_view(ready@) =~= Seq::<StatusEntryView>::empty());
    assert(blocked_view(blocked@) =~= Seq::<BlockedView>::empty());
    while i < tickets.len()
        invariant
            i <= tickets@.len(),
            all == tickets_view(tickets@),
            entries_view(active@) == sections_spec(all, all.subrange(0, i as int), blockers@, show_blocked).active,
            entries_view(ready@) == sections_spec(all, all.subrange(0, i as int), blockers@, show_blocked).ready,
            blocked_view(blocked@) == sections_spec(all, all.subrange(0, i as int), blockers@, show_blocked).blocked,
            done_count == sections_spec(all, all.subrange(0, i as int), blockers@, show_blocked).done_count,
            total == sections_spec(all, all.subrange(0, i as int), blockers@, show_blocked).total,
            total == i,
        decreases tickets@.len() - i,
    {
        let ghost sub = all.subrange(0, i + 1);
        assert(sub.drop_last() =~= all.subrange(0, i as int));
        assert(sub.last() == tickets@[i as int]@);
        proof {
            lemma_sections_counts(all, all.subrange(0, i as int), blockers@, show_blocked);
        }
        let t = &tickets[i];
        let state = state_text_of(t);
        total = total + 1;
        if done_state(state) {
            done_count = done_count + 1;
        } else if paused_state(state) {
            if show_blocked {
                let ghost before = blocked_view(blocked@);
                blocked.push(
                    BlockedEntry { id: t.id, title: clone_opt_string(&t.title), state: state.to_string(), waiting_on: Vec::new() },
                );
                assert(blocked@.last().waiting_on@.map_values(|w: WaitingOn| (w.id, w.title@, w.state@)) =~= Seq::<
                    (u128, Seq<char>, Seq<char>),
                >::empty());
                assert(blocked_view(blocked@) =~= before.push(
                    BlockedView { id: t.id, title: t@.title, state: state@, waiting_on: Seq::empty() },
                ));
            }
        } else if active_state(state) {
            let ghost before = entries_view(active@);
            active.push(
                StatusEntry { id: t.id, title: clone_opt_string(&t.title), state: state.to_string(), component: t.type_id.clone() },
            );
            assert(entries_view(active@) =~= before.push(entry_spec(t@)));
        } else {
            let unresolved = lookup_blockers(blockers, t.id);
            if unresolved.len() == 0 {
                let ghost before = entries_view(ready@);
                ready.push(
                    StatusEntry { id: t.id, title: clone_opt_string(&t.title), state: state.to_string(), component: t.type_id.clone() },
                );
                assert(entries_view(ready@) =~= before.push(entry_spec(t@)));
            } else if show_blocked {
                let ghost before = blocked_view(blocked@);
                let waiting = waiting_entries(&unresolved, tickets);
                blocked.push(BlockedEntry { id: t.id, title: clone_opt_string(&t.title), state: state.to_string(), waiting_on: waiting });
                assert(blocked_view(blocked@) =~= before.push(
                    BlockedView {
                        id: t.id,
                        title: t@.title,
                        state: state@,
                        waiting_on: waiting_spec(all, blockers_for(blockers@, t.id)),
                    },
                ));
            }
        }
        i = i + 1;
    }
    assert(all.subrange(0, tickets@.len() as int) =~= all);
    proof {
        lemma_sections_counts(all, all, blockers@, show_blocked);
    }
    StatusSections { active, ready, blocked, done_count, total }
}

/// The components of some entries, each once, in order of first appearance.
pub open spec fn distinct_components(rs: Seq<StatusEntryView>) -> Seq<Seq<char>>
    decreases rs.len(),
{
    if rs.len() == 0 {
        Seq::empty()
    } else {
        let prev = distinct_components(rs.drop_last());
        if prev.contains(rs.last().component) {
            prev
        } else {
            prev.push(rs.last().component)
        }
    }
}

/// The entries of one component, in order.
pub open spec fn with_component(rs: Seq<StatusEntryView>, c: Seq<char>) -> Seq<StatusEntryView>
    decreases rs.len(),
{
    if rs.len() == 0 {
        Seq::empty()
    } else {
        let prev = with_component(rs.drop_last(), c);
        if rs.last().component == c {
            prev.push(rs.last())
        } else {
            prev
        }
    }
}

/// Ready work that can proceed side by side: the entries of one component.
pub struct ParallelGroup {
    pub component: String,
    pub tickets: Vec<StatusEntry>,
}

fn has_text(v: &Vec<String>, x: &str) -> (r: bool)
    ensures
        r == v@.map_values(|s: String| s@).contains(x@),
{
    let ghost vv = v@.map_values(|s: String| s@);
    let mut i: usize = 0;
    while i < v.len()
        invariant
            i <= v@.len(),
            vv == v@.map_values(|s: String| s@),
            forall|j: int| 0 <= j < i ==> vv[j] != x@,
        decreases v@.len() - i,
    {
        if str_eq(v[i].as_str(), x) {
            assert(vv[i as int] == x@);
            return true;
        }
        i = i + 1;
    }
    false
}

/// The ready work grouped by component: one group per component, in order
/// of first appearance, each with its entries in order.
pub fn parallel_groups(ready: &[StatusEntry]) -> (r: Vec<ParallelGroup>)
    ensures
        r@.len() == distinct_components(entries_view(ready@)).len(),
        forall|k: int|
            0 <= k < r@.len() ==> (#[trigger] r@[k]).component@ == distinct_components(entries_view(ready@))[k]
                && entries_view(r@[k].tickets@) == with_component(entries_view(ready@), r@[k].component@),
{
    let ghost rv = entries_view(ready@);
    let mut keys: Vec<String> = Vec::new();
    let mut i: usize = 0;
    assert(rv.subrange(0, 0) =~= Seq::<StatusEntryView>::empty());
    assert(keys@.map_values(|s: String| s@) =~= Seq::<Seq<char>>::empty());
    while i < ready.len()
        invariant
            i <= ready@.len(),
            rv == entries_view(ready@),
            keys@.map_values(|s: String| s@) == distinct_components(rv.subrange(0, i as int)),
        decreases ready@.len() - i,
    {
        let ghost sub = rv.subrange(0, i + 1);
        assert(sub.drop_last() =~= rv.subrange(0, i as int));
        assert(sub.last() == ready@[i as int]@);
        let ghost before = keys@.map_values(|s: String| s@);
        if !has_text(&keys, ready[i].component.as_str()) {
            keys.push(ready[i].component.clone());
            assert(keys@.map_values(|s: String| s@) =~= before.push(ready@[i as int].component@));
        }
        i = i + 1;
    }
    assert(rv.subrange(0, ready@.len() as int) =~= rv);
    let mut groups: Vec<ParallelGroup> = Vec::new();
    let mut k: usize = 0;
    while k < keys.len()
        invariant
            k <= keys@.len(),
            rv == entries_view(ready@),
            keys@.map_values(|s: String| s@) == distinct_components(rv),
            groups@.len() == k,
            forall|g: int|
                0 <= g < k ==> (#[trigger] groups@[g]).component@ == keys@[g]@ && entries_view(groups@[g].tickets@)
                    == with_component(rv, groups@[g].component@),
        decreases keys@.len() - k,
    {
        let key = keys[k].as_str();
        let mut members: Vec<StatusEntry> = Vec::new();
        let mut j: usize = 0;
        assert(entries_view(members@) =~= with_component(rv.subrange(0, 0), key@));
        while j < ready.len()
            invariant
                j <= ready@.len(),
                rv == entries_view(ready@),
                entries_view(members@) == with_component(rv.subrange(0, j as int), key@),
            decreases ready@.len() - j,
        {
            let ghost sub = rv.subrange(0, j + 1);
            assert(sub.drop_last() =~= rv.subrange(0, j as int));
            assert(sub.last() == ready@[j as int]@);
            let ghost before = entries_view(members@);
            if str_eq(ready[j].component.as_str(), key) {
                members.push(ready[j].duplicate());
                assert(entries_view(members@) =~= before.push(ready@[j as int]@));
            }
            j = j + 1;
        }
        assert(rv.subrange(0, ready@.len() as int) =~= rv);
        groups.push(ParallelGroup { component: keys[k].clone(), tickets: members });
        k = k + 1;
    }
    proof {
        assert forall|g: int| 0 <= g < groups@.len() implies (#[trigger] groups@[g]).component@ == distinct_components(rv)[g] by {
            assert(keys@.map_values(|s: String| s@)[g] == keys@[g]@);
        }
    }
    groups
}

/// The dashboard's counts: all tickets, finished, in progress, ready, and
/// blocked (when blocked work is not listed, every ticket in no other
/// section).
pub struct StatusSummary {
    pub total: usize,
    pub done: usize,
    pub active: usize,
    pub planned: usize,
    pub blocked: usize,
}

/// The counts of the dashboard's sections.
pub fn status_summary(sections: &StatusSections, show_blocked: bool) -> (r: StatusSummary)
    requires
        sections.done_count + sections.active@.len() + sections.ready@.len() <= sections.total,
    ensures
        r.total == sections.total,
        r.done == sections.done_count,
        r.active == sections.active@.len(),
        r.planned == sections.ready@.len(),
        r.blocked == if show_blocked {
            sections.blocked@.len() as int
        } else {
            sections.total - sections.done_count - sections.active@.len() - sections.ready@.len()
        },
{
    let blocked = if show_blocked {
        sections.blocked.len()
    } else {
        sections.total - sections.done_count - sections.active.len() - sections.ready.len()
    };
    StatusSummary {
        total: sections.total,
        done: sections.done_count,
        active: sections.active.len(),
        planned: sections.ready.len(),
        blocked,
    }
}
} // verus!
