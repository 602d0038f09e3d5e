//! Small pieces of the HTTP service: the request-id extension, the
//! allocation of stream event ids, and the choice a move request makes.
use vstd::prelude::*;

verus! {

/// The request id attached to each request by the service.
#[derive(Clone, Debug, Default)]
pub struct RequestIdExt(pub String);

/// The value the shared event counter starts from: the first event id.
pub const FIRST_EVENT_ID: u64 = 1;

/// The counter after one allocation: one more, wrapping at the top of `u64`.
pub open spec fn next_counter(c: u64) -> u64 {
    if c == u64::MAX { 0 } else { (c + 1) as u64 }
}

/// The counter after `n` allocations from `c`.
pub open spec fn counter_after(c: u64, n: nat) -> u64
    decreases n,
{
    if n == 0 { c } else { next_counter(counter_after(c, (n - 1) as nat)) }
}

/// Event ids, allocated one after another from a counter that starts at
/// `FIRST_EVENT_ID`, are 1, 2, 3, ...: the id of allocation `k` (counting
/// from 0) is `k + 1`, so ids start at 1 and strictly increase, as long as
/// fewer than `u64::MAX` of them were allocated.
pub proof fn lemma_event_ids_count_up(k: nat, j: nat)
    requires
        j < k,
        k < u64::MAX,
    ensures
        counter_after(FIRST_EVENT_ID, k) == k + 1,
        1 <= counter_after(FIRST_EVENT_ID, j) < counter_after(FIRST_EVENT_ID, k),
    decreases k,
{
    lemma_counter_after(k);
    lemma_counter_after(j);
}

proof fn lemma_counter_after(k: nat)
    requires
        k < u64::MAX,
    ensures
        counter_after(FIRST_EVENT_ID, k) == k + 1,
    decreases k,
{
    if k > 0 {
        lemma_counter_after((k - 1) as nat);
    }
}

/// Allocates the next stream event id from the shared counter: returns the
/// counter's value and advances it by one, wrapping at the top of `u64`
/// (as an atomic `fetch_add` does).
pub fn next_event_id(counter: &mut u64) -> (r: u64)
    ensures
        r == *old(counter),
        *final(counter) == next_counter(*old(counter)),
{
    let r = *counter;
    *counter = counter.wrapping_add(1);
    r
}

/// What a move request does once its preflight plan is known.
pub enum MoveStep {
    /// Answer with the plan alone: HTTP 200 and `ok` when the move is
    /// supported, HTTP 409 and `blocked` when it is not.
    Plan { http_status: u16, status: &'static str },
    /// Carry the move out.
    Apply,
}

/// A dry run, or a move the plan does not support, answers with the plan;
/// any other move is applied.
pub fn move_step(dry_run: bool, supported: bool) -> (r: MoveStep)
    ensures
        (dry_run || !supported) <==> r is Plan,
        r matches MoveStep::Plan { http_status, status } ==> {
            &&& http_status == (if supported { 200u16 } else { 409u16 })
            &&& status@ == (if supported { "ok"@ } else { "blocked"@ })
        },
{
    if dry_run || !supported {
        if supported {
            MoveStep::Plan { http_status: 200, status: "ok" }
        } else {
            MoveStep::Plan { http_status: 409, status: "blocked" }
        }
    } else {
        MoveStep::Apply
    }
}

} // verus!
