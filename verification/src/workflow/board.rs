//! Board awareness on top of ranked workflow candidates.
use vstd::prelude::*;
use crate::text::{decimal, push_decimal};
use super::contains_id;

verus! {

/// Lifecycle status of a board entry.
#[derive(Clone, Copy, PartialEq, Eq)]
pub enum BoardEntryStatus {
    Active,
    Stale,
    Conflict,
    Completed,
}

/// Board limits: the WIP limit, the heartbeat age after which an active
/// entry counts as stale, and the completion history window (seconds, `0`
/// for all of it).
pub struct BoardConfig {
    pub max_wip: u32,
    pub stale_after_secs: u64,
    pub completed_audit_window_secs: u64,
}

/// One board entry: the ticket it holds, who holds it and why, and its last
/// heartbeat (nanoseconds since the Unix epoch).
pub struct BoardEntry {
    pub ticket_id: u128,
    pub agent_id: String,
    pub status: BoardEntryStatus,
    pub intent: String,
    pub last_heartbeat: i128,
}

/// A board snapshot: its entries, limits and counts, the warnings it
/// raised, and which agents own each file (in path order).
pub struct BoardSnapshot {
    pub entries: Vec<BoardEntry>,
    pub config: BoardConfig,
    pub active_count: u32,
    pub stale_count: u32,
    pub conflict_count: u32,
    pub warnings: Vec<String>,
    pub file_ownership: Vec<(String, Vec<String>)>,
}

/// Board-owned ticket surfaced separately from visible candidates.
pub struct BoardExcludedCandidate {
    pub ticket_id: u128,
    pub agent_id: String,
    pub status: String,
    pub intent: String,
}

/// Board-aware candidate view used by `next` surfaces.
pub struct BoardAwareCandidates {
    pub candidates: Vec<u128>,
    pub excluded_by_board: Vec<BoardExcludedCandidate>,
    pub warnings: Vec<String>,
}

/// Entries that hold their ticket: active or stale ones.
pub open spec fn tracked_spec(status: BoardEntryStatus) -> bool {
    status == BoardEntryStatus::Active || status == BoardEntryStatus::Stale
}

/// Whether a board entry with this status holds its ticket.
pub fn tracked_by_board(status: &BoardEntryStatus) -> (r: bool)
    ensures
        r == tracked_spec(*status),
{
    match status {
        BoardEntryStatus::Active => true,
        BoardEntryStatus::Stale => true,
        _ => false,
    }
}

pub open spec fn status_label(status: BoardEntryStatus) -> Seq<char> {
    match status {
        BoardEntryStatus::Active => "active"@,
        BoardEntryStatus::Stale => "stale"@,
        BoardEntryStatus::Conflict => "conflict"@,
        BoardEntryStatus::Completed => "completed"@,
    }
}

/// The lower-case label of a board status.
pub fn board_status(status: &BoardEntryStatus) -> (r: &'static str)
    ensures
        r@ == status_label(*status),
{
    match status {
        BoardEntryStatus::Active => "active",
        BoardEntryStatus::Stale => "stale",
        BoardEntryStatus::Conflict => "conflict",
        BoardEntryStatus::Completed => "completed",
    }
}

pub open spec fn wip_reached_message(active: u32, max: u32) -> Seq<char> {
    "WIP limit reached: "@ + decimal(active as nat) + "/"@ + decimal(max as nat)
        + " active entries \u{2014} pause new work and reduce the board."@
}

pub open spec fn wip_near_message(active: u32, max: u32) -> Seq<char> {
    "Approaching WIP limit: "@ + decimal(active as nat) + "/"@ + decimal(max as nat) + " active entries."@
}

pub open spec fn stale_message(stale: u32) -> Seq<char> {
    decimal(stale as nat) + " stale board entr"@ + (if stale == 1 { "y"@ } else { "ies"@ })
        + " \u{2014} heartbeat has expired; run board heartbeat or clean."@
}

/// The board warnings: the WIP limit reached (or one entry short of it),
/// then stale entries.
pub open spec fn board_warnings_spec(b: Option<&BoardSnapshot>) -> Seq<Seq<char>> {
    match b {
        None => Seq::empty(),
        Some(s) => {
            let wip = if s.active_count >= s.config.max_wip {
                seq![wip_reached_message(s.active_count, s.config.max_wip)]
            } else if s.config.max_wip > 0 && s.active_count + 1 >= s.config.max_wip {
                seq![wip_near_message(s.active_count, s.config.max_wip)]
            } else {
                Seq::empty()
            };
            if s.stale_count > 0 {
                wip.push(stale_message(s.stale_count))
            } else {
                wip
            }
        },
    }
}

pub open spec fn strings_view(v: Seq<String>) -> Seq<Seq<char>> {
    v.map_values(|s: String| s@)
}

/// Warnings about the board's WIP limit and stale entries.
pub fn board_warnings(board_snap: Option<&BoardSnapshot>) -> (r: Vec<String>)
    ensures
        strings_view(r@) == board_warnings_spec(board_snap),
{
    let mut warnings: Vec<String> = Vec::new();
    let snapshot = match board_snap {
        None => {
            assert(strings_view(warnings@) =~= Seq::<Seq<char>>::empty());
            return warnings;
        },
        Some(s) => s,
    };
    let max_wip = snapshot.config.max_wip;
    if snapshot.active_count >= max_wip {
        let mut w = String::new();
        w.append("WIP limit reached: ");
        push_decimal(&mut w, snapshot.active_count as u64);
        w.append("/");
        push_decimal(&mut w, max_wip as u64);
        w.append(" active entries \u{2014} pause new work and reduce the board.");
        assert(w@ =~= wip_reached_message(snapshot.active_count, max_wip));
        warnings.push(w);
    } else if max_wip > 0 && snapshot.active_count + 1 >= max_wip {
        let mut w = String::new();
        w.append("Approaching WIP limit: ");
        push_decimal(&mut w, snapshot.active_count as u64);
        w.append("/");
        push_decimal(&mut w, max_wip as u64);
        w.append(" active entries.");
        assert(w@ =~= wip_near_message(snapshot.active_count, max_wip));
        warnings.push(w);
    }
    let ghost wip = strings_view(warnings@);
    if snapshot.stale_count > 0 {
        let mut w = String::new();
        push_decimal(&mut w, snapshot.stale_count as u64);
        w.append(" stale board entr");
        if snapshot.stale_count == 1 {
            w.append("y");
        } else {
            w.append("ies");
        }
        w.append(" \u{2014} heartbeat has expired; run board heartbeat or clean.");
        assert(w@ =~= stale_message(snapshot.stale_count));
        warnings.push(w);
        assert(strings_view(warnings@) =~= wip.push(stale_message(snapshot.stale_count)));
    }
    assert(strings_view(warnings@) =~= board_warnings_spec(board_snap));
    warnings
}

pub open spec fn tracked_ids(entries: Seq<BoardEntry>) -> Seq<u128>
    decreases entries.len(),
{
    if entries.len() == 0 {
        Seq::empty()
    } else {
        let rest = tracked_ids(entries.drop_last());
        if tracked_spec(entries.last().status) {
            rest.push(entries.last().ticket_id)
        } else {
            rest
        }
    }
}

/// The candidates that no active or stale entry holds, in order.
pub open spec fn unheld(candidates: Seq<u128>, held: Seq<u128>) -> Seq<u128>
    decreases candidates.len(),
{
    if candidates.len() == 0 {
        Seq::empty()
    } else {
        let rest = unheld(candidates.drop_last(), held);
        if held.contains(candidates.last()) {
            rest
        } else {
            rest.push(candidates.last())
        }
    }
}

/// What an excluded-candidate record says about a board entry.
pub open spec fn excluded_matches(x: BoardExcludedCandidate, e: BoardEntry) -> bool {
    &&& x.ticket_id == e.ticket_id
    &&& x.agent_id@ == e.agent_id@
    &&& x.status@ == status_label(e.status)
    &&& x.intent@ == e.intent@
}

/// The board entries that hold one of the candidates, in entry order.
pub open spec fn holding_entries(entries: Seq<BoardEntry>, candidates: Seq<u128>) -> Seq<BoardEntry>
    decreases entries.len(),
{
    if entries.len() == 0 {
        Seq::empty()
    } else {
        let rest = holding_entries(entries.drop_last(), candidates);
        let e = entries.last();
        if tracked_spec(e.status) && candidates.contains(e.ticket_id) {
            rest.push(e)
        } else {
            rest
        }
    }
}

/// Apply board awareness to ranked candidates: keep their order, drop the
/// tickets held by active or stale board entries (unless `skip_board`),
/// and report those entries separately together with the board warnings.
pub fn apply_board_filter(candidates: Vec<u128>, board_snap: Option<&BoardSnapshot>, skip_board: bool) -> (r: BoardAwareCandidates)
    ensures
        strings_view(r.warnings@) == board_warnings_spec(board_snap),
        (skip_board || board_snap is None) ==> r.candidates@ == candidates@ && r.excluded_by_board@.len() == 0,
        !skip_board ==> (board_snap matches Some(s) ==> {
            &&& r.candidates@ == unheld(candidates@, tracked_ids(s.entries@))
            &&& r.excluded_by_board@.len() == holding_entries(s.entries@, candidates@).len()
            &&& forall|i: int| 0 <= i < r.excluded_by_board@.len()
                ==> excluded_matches(#[trigger] r.excluded_by_board@[i], holding_entries(s.entries@, candidates@)[i])
        }),
{
    let warnings = board_warnings(board_snap);
    if skip_board {
        return BoardAwareCandidates { candidates, excluded_by_board: Vec::new(), warnings };
    }
    let snapshot = match board_snap {
        None => {
            return BoardAwareCandidates { candidates, excluded_by_board: Vec::new(), warnings };
        },
        Some(s) => s,
    };
    let ghost es = snapshot.entries@;
    let mut excluded: Vec<BoardExcludedCandidate> = Vec::new();
    let mut held: Vec<u128> = Vec::new();
    let mut i: usize = 0;
    while i < snapshot.entries.len()
        invariant
            es == snapshot.entries@,
            i <= es.len(),
            held@ == tracked_ids(es.subrange(0, i as int)),
            excluded@.len() == holding_entries(es.subrange(0, i as int), candidates@).len(),
            forall|k: int| 0 <= k < excluded@.len()
                ==> excluded_matches(#[trigger] excluded@[k], holding_entries(es.subrange(0, i as int), candidates@)[k]),
        decreases es.len() - i,
    {
        proof {
            assert(es.subrange(0, i + 1).drop_last() =~= es.subrange(0, i as int));
            assert(es.subrange(0, i + 1).last() == es[i as int]);
        }
        let e = &snapshot.entries[i];
        let ghost hb = holding_entries(es.subrange(0, i as int), candidates@);
        if tracked_by_board(&e.status) {
            held.push(e.ticket_id);
            if contains_id(&candidates, e.ticket_id) {
                let x = BoardExcludedCandidate {
                    ticket_id: e.ticket_id,
                    agent_id: e.agent_id.clone(),
                    status: board_status(&e.status).to_owned(),
                    intent: e.intent.clone(),
                };
                excluded.push(x);
                proof {
                    let hn = holding_entries(es.subrange(0, i + 1), candidates@);
                    assert(hn == hb.push(es[i as int]));
                    assert forall|k: int| 0 <= k < excluded@.len() implies excluded_matches(#[trigger] excluded@[k], hn[k]) by {
                        if k < hb.len() {
                            assert(hn[k] == hb[k]);
                        }
                    }
                }
            }
        }
        i = i + 1;
    }
    assert(es.subrange(0, es.len() as int) =~= es);
    let mut kept: Vec<u128> = Vec::new();
    let mut j: usize = 0;
    while j < candidates.len()
        invariant
            j <= candidates@.len(),
            kept@ == unheld(candidates@.subrange(0, j as int), held@),
        decreases candidates@.len() - j,
    {
        proof {
            assert(candidates@.subrange(0, j + 1).drop_last() =~= candidates@.subrange(0, j as int));
            assert(candidates@.subrange(0, j + 1).last() == candidates@[j as int]);
        }
        if !contains_id(&held, candidates[j]) {
            kept.push(candidates[j]);
        }
        j = j + 1;
    }
    assert(candidates@.subrange(0, candidates@.len() as int) =~= candidates@);
    BoardAwareCandidates { candidates: kept, excluded_by_board: excluded, warnings }
}

/// A ticket is among the tracked ids exactly when an active or stale entry
/// holds it.
pub proof fn lemma_tracked_ids(entries: Seq<BoardEntry>, id: u128)
    ensures
        tracked_ids(entries).contains(id)
            <==> exists|i: int| 0 <= i < entries.len() && tracked_spec(entries[i].status) && #[trigger] entries[i].ticket_id == id,
    decreases entries.len(),
{
    if entries.len() > 0 {
        let init = entries.drop_last();
        lemma_tracked_ids(init, id);
        let rest = tracked_ids(init);
        let t = tracked_ids(entries);
        if t.contains(id) {
            let k = choose|k: int| 0 <= k < t.len() && t[k] == id;
            if k < rest.len() {
                assert(rest[k] == id);
                assert(rest.contains(id));
                let i = choose|i: int| 0 <= i < init.len() && tracked_spec(init[i].status) && #[trigger] init[i].ticket_id == id;
                assert(entries[i] == init[i]);
            } else {
                assert(entries[entries.len() - 1] == entries.last());
            }
        }
        if exists|i: int| 0 <= i < entries.len() && tracked_spec(entries[i].status) && #[trigger] entries[i].ticket_id == id {
            let i = choose|i: int| 0 <= i < entries.len() && tracked_spec(entries[i].status) && #[trigger] entries[i].ticket_id == id;
            if i < init.len() {
                assert(init[i] == entries[i]);
                assert(rest.contains(id));
                let k = choose|k: int| 0 <= k < rest.len() && rest[k] == id;
                assert(t[k] == id);
            } else {
                assert(entries.last() == entries[i]);
                assert(t[t.len() - 1] == id);
            }
        }
    }
}

/// Board filtering drops exactly the candidates that an active or a stale
/// entry holds; conflicting and completed entries hold nothing.
pub proof fn lemma_board_filter_drops_active_and_stale(candidates: Seq<u128>, entries: Seq<BoardEntry>, x: u128)
    ensures
        unheld(candidates, tracked_ids(entries)).contains(x) <==> (candidates.contains(x) && !exists|i: int|
            0 <= i < entries.len() && (entries[i].status == BoardEntryStatus::Active || entries[i].status
                == BoardEntryStatus::Stale) && #[trigger] entries[i].ticket_id == x),
{
    lemma_board_filter_keeps(candidates, entries, x);
}

/// The entries reported as excluding a candidate are, in board order,
/// exactly the active and stale entries that hold a candidate.
pub proof fn lemma_holding_entries_active_and_stale(entries: Seq<BoardEntry>, candidates: Seq<u128>)
    ensures
        holding_entries(entries, candidates) == entries.filter(
            |e: BoardEntry|
                (e.status == BoardEntryStatus::Active || e.status == BoardEntryStatus::Stale)
                    && candidates.contains(e.ticket_id),
        ),
    decreases entries.len(),
{
    reveal(Seq::filter);
    if entries.len() > 0 {
        lemma_holding_entries_active_and_stale(entries.drop_last(), candidates);
    }
}

/// What board filtering keeps of the ranked candidates: exactly those that
/// no active or stale entry holds, in their order (`unheld` keeps order by
/// construction).
pub proof fn lemma_board_filter_keeps(candidates: Seq<u128>, entries: Seq<BoardEntry>, x: u128)
    ensures
        unheld(candidates, tracked_ids(entries)).contains(x) <==> (candidates.contains(x)
            && !exists|i: int| 0 <= i < entries.len() && tracked_spec(entries[i].status) && #[trigger] entries[i].ticket_id == x),
    decreases candidates.len(),
{
    lemma_tracked_ids(entries, x);
    let h = tracked_ids(entries);
    if candidates.len() > 0 {
        let init = candidates.drop_last();
        lemma_board_filter_keeps(init, entries, x);
        let rest = unheld(init, h);
        let u = unheld(candidates, h);
        if u.contains(x) {
            let k = choose|k: int| 0 <= k < u.len() && u[k] == x;
            if k < rest.len() {
                assert(rest[k] == x);
                assert(rest.contains(x));
                let q = choose|q: int| 0 <= q < init.len() && init[q] == x;
                assert(candidates[q] == x);
            } else {
                assert(candidates[candidates.len() - 1] == x);
            }
        }
        if candidates.contains(x) && !h.contains(x) {
            let q = choose|q: int| 0 <= q < candidates.len() && candidates[q] == x;
            if q < init.len() {
                assert(init[q] == x);
                assert(init.contains(x));
                assert(rest.contains(x));
                let k = choose|k: int| 0 <= k < rest.len() && rest[k] == x;
                assert(u[k] == x);
            } else {
                assert(u[u.len() - 1] == x);
            }
        }
    }
}

} // verus!
