//! Transactional batches: commands run in order, and the first failure rolls
//! back every command that succeeded, last first.
use vstd::prelude::*;
use crate::human::{JsonValue, field_spec, as_str_spec, get_field, uuid_of, parse_uuid};

verus! {

/// An operation that undoes one command of a batch: delete a created
/// ticket, restore a ticket's fields and state, remove an added edge, or
/// reverse a board check-in or check-out.
pub enum BatchUndoOp {
    Delete { id: u128 },
    RestoreUpdate { id: u128, saved_extra: Vec<(String, JsonValue)>, saved_state: Option<String> },
    RemoveEdge { from: u128, to: u128, kind: String },
    BoardCheckOut { ticket_id: u128, agent_id: String },
    BoardCheckIn { ticket_id: u128, agent_id: String },
}

/// What came of one command of a batch: it succeeded, leaving an operation
/// that undoes it (if it can be undone), or it failed.
pub enum BatchEvent {
    Succeeded(Option<BatchUndoOp>),
    Failed,
}

/// What the runner of a batch does next.
pub enum BatchAction {
    /// Run the command at this index.
    Dispatch(usize),
    /// Every command succeeded.
    Finished,
    /// The command at `failed_at` failed: apply these undo operations, in
    /// this order, and report the failure.
    RollBack { failed_at: usize, undos: Vec<BatchUndoOp> },
}

/// The undo operations of the successful commands, in the order they ran.
pub open spec fn recorded_undos(outcomes: Seq<Option<BatchUndoOp>>) -> Seq<BatchUndoOp>
    decreases outcomes.len(),
{
    if outcomes.len() == 0 {
        Seq::empty()
    } else {
        let prev = recorded_undos(outcomes.drop_last());
        match outcomes.last() {
            Some(u) => prev.push(u),
            None => prev,
        }
    }
}

/// The state of a batch in progress: how many commands it has, what came of
/// those that ran, the undo operations they left, and whether it is over.
pub struct BatchRun {
    total: usize,
    completed: usize,
    outcomes: Ghost<Seq<Option<BatchUndoOp>>>,
    undo_stack: Vec<BatchUndoOp>,
    finished: bool,
}

impl BatchRun {
    /// The number of commands in the batch.
    pub closed spec fn total_spec(&self) -> nat {
        self.total as nat
    }

    /// What came of the commands that succeeded so far, in order.
    pub closed spec fn outcomes(&self) -> Seq<Option<BatchUndoOp>> {
        self.outcomes@
    }

    /// Whether the batch is over: all its commands ran, or one failed.
    pub closed spec fn finished_spec(&self) -> bool {
        self.finished
    }

    /// The runner's own invariant: the undo operations held are those of
    /// the successful commands, in order, and no more commands ran than the
    /// batch has; a batch that is not over still has a command to run.
    pub closed spec fn wf(&self) -> bool {
        &&& self.completed == self.outcomes@.len()
        &&& self.completed <= self.total
        &&& !self.finished ==> self.outcomes@.len() < self.total
        &&& !self.finished ==> self.undo_stack@ == recorded_undos(self.outcomes@)
    }

    /// Starts a batch of `total` commands: the first command runs, or the
    /// batch is over at once when it has none.
    pub fn start(total: usize) -> (r: (Self, BatchAction))
        ensures
            r.0.wf(),
            r.0.total_spec() == total,
            r.0.outcomes() == Seq::<Option<BatchUndoOp>>::empty(),
            r.0.finished_spec() == (total == 0),
            total > 0 ==> r.1 == BatchAction::Dispatch(0),
            total == 0 ==> r.1 is Finished,
    {
        let run = BatchRun { total, completed: 0, outcomes: Ghost(Seq::empty()), undo_stack: Vec::new(), finished: total == 0 };
        if total == 0 {
            (run, BatchAction::Finished)
        } else {
            (run, BatchAction::Dispatch(0))
        }
    }

    /// The number of commands in the batch.
    pub fn total(&self) -> (r: usize)
        ensures
            r == self.total_spec(),
    {
        self.total
    }

    /// Whether the batch is over.
    pub fn is_finished(&self) -> (r: bool)
        ensures
            r == self.finished_spec(),
    {
        self.finished
    }

    /// Records what came of the command that ran last, and says what to do
    /// next. A success keeps its undo operation and moves to the next
    /// command, or ends the batch after the last one. A failure ends the
    /// batch and hands back every undo operation kept so far, the last
    /// first, with the index of the failed command.
    pub fn record(self, event: BatchEvent) -> (r: (BatchRun, BatchAction))
        requires
            self.wf(),
            !self.finished_spec(),
        ensures
            r.0.wf(),
            r.0.total_spec() == self.total_spec(),
            match event {
                BatchEvent::Succeeded(u) => {
                    &&& r.0.outcomes() == self.outcomes().push(u)
                    &&& if r.0.outcomes().len() < r.0.total_spec() {
                        &&& !r.0.finished_spec()
                        &&& r.1 == BatchAction::Dispatch(r.0.outcomes().len() as usize)
                    } else {
                        r.0.finished_spec() && r.1 is Finished
                    }
                },
                BatchEvent::Failed => {
                    &&& r.0.outcomes() == self.outcomes()
                    &&& r.0.finished_spec()
                    &&& r.1 matches BatchAction::RollBack { failed_at, undos } && failed_at
                        == self.outcomes().len() && undos@ == recorded_undos(self.outcomes()).reverse()
                },
            },
    {
        let BatchRun { total, completed, outcomes, undo_stack, finished } = self;
        let mut undo_stack = undo_stack;
        match event {
            BatchEvent::Succeeded(u) => {
                let ghost before = outcomes@;
                let outcomes: Ghost<Seq<Option<BatchUndoOp>>> = Ghost(before.push(u));
                assert(outcomes@.drop_last() =~= before);
                match u {
                    Some(op) => undo_stack.push(op),
                    None => {},
                }
                let next: usize = completed + 1;
                let done = next >= total;
                let run = BatchRun { total, completed: next, outcomes, undo_stack, finished: done };
                if done {
                    (run, BatchAction::Finished)
                } else {
                    (run, BatchAction::Dispatch(next))
                }
            },
            BatchEvent::Failed => {
                let ghost stack = undo_stack@;
                let mut undos: Vec<BatchUndoOp> = Vec::new();
                while undo_stack.len() > 0
                    invariant
                        undo_stack@ == stack.subrange(0, undo_stack@.len() as int),
                        undo_stack@.len() <= stack.len(),
                        undos@ == stack.subrange(undo_stack@.len() as int, stack.len() as int).reverse(),
                    decreases undo_stack@.len(),
                {
                    let ghost k = undo_stack@.len();
                    let op = undo_stack.pop().unwrap();
                    undos.push(op);
                    assert(stack.subrange(k - 1, stack.len() as int) =~= seq![stack[k - 1]] + stack.subrange(
                        k as int,
                        stack.len() as int,
                    ));
                    assert(undos@ =~= stack.subrange(k - 1, stack.len() as int).reverse());
                }
                assert(stack.subrange(0, stack.len() as int) =~= stack);
                let run = BatchRun { total, completed, outcomes, undo_stack, finished: true };
                (run, BatchAction::RollBack { failed_at: completed, undos })
            },
        }
    }
}


/// What a command leaves, before it runs, for building its undo operation
/// from its result: a create or link is undone from what it reports; an
/// update restores the fields and state saved here; a board check-in or
/// check-out is reversed for the ticket and agent it names.
pub enum BatchUndoContext {
    Create,
    Update { id: u128, saved_extra: Vec<(String, JsonValue)>, saved_state: Option<String> },
    Link,
    BoardCheckIn { ticket_ref: String, agent_id: String },
    BoardCheckOut { ticket_ref: String, agent_id: Option<String> },
}

/// The fields of a result object (none for any other value).
pub open spec fn result_fields(result: JsonValue) -> Seq<(String, JsonValue)> {
    match result {
        JsonValue::Object(m, _) => m@,
        _ => Seq::empty(),
    }
}

/// The text of a result's string field.
pub open spec fn result_string_spec(result: JsonValue, field: Seq<char>) -> Option<Seq<char>> {
    as_str_spec(field_spec(result_fields(result), field))
}

/// The ticket id in a result's string field, if it is a UUID.
pub open spec fn result_uuid_spec(result: JsonValue, field: Seq<char>) -> Option<u128> {
    match result_string_spec(result, field) {
        Some(t) => uuid_of(t),
        None => None,
    }
}

/// The text of a result's string field (see `result_string_spec`).
pub fn result_string(result: &JsonValue, field: &str) -> (r: Option<String>)
    ensures
        match r {
            Some(x) => result_string_spec(*result, field@) == Some(x@),
            None => result_string_spec(*result, field@) is None,
        },
{
    match result {
        JsonValue::Object(m, _) => match get_field(m, field) {
            Some(JsonValue::String(x)) => Some(x.clone()),
            _ => None,
        },
        _ => None,
    }
}

/// The ticket id in a result's field (see `result_uuid_spec`).
pub fn result_uuid(result: &JsonValue, field: &str) -> (r: Option<u128>)
    ensures
        r == result_uuid_spec(*result, field@),
{
    match result {
        JsonValue::Object(m, _) => match get_field(m, field) {
            Some(JsonValue::String(x)) => parse_uuid(x.as_str()),
            _ => None,
        },
        _ => None,
    }
}

/// A create is undone by deleting the ticket its result names.
pub open spec fn create_undo_spec(result: JsonValue) -> Option<BatchUndoOp> {
    match result_uuid_spec(result, "id"@) {
        Some(id) => Some(BatchUndoOp::Delete { id }),
        None => None,
    }
}

/// The undo operation of a create (see `create_undo_spec`).
pub fn create_undo_from_result(result: &JsonValue) -> (r: Option<BatchUndoOp>)
    ensures
        r == create_undo_spec(*result),
{
    match result_uuid(result, "id") {
        Some(id) => Some(BatchUndoOp::Delete { id }),
        None => None,
    }
}

/// Whether an undo operation removes the edge `from`, `to`, `kind`.
pub open spec fn removes_edge(op: BatchUndoOp, from: u128, to: u128, kind: Seq<char>) -> bool {
    op matches BatchUndoOp::RemoveEdge { from: f, to: t, kind: k } && f == from && t == to && k@ == kind
}

/// The undo operation of a link: remove the edge its result names, when it
/// names both ends and the kind.
pub fn link_undo_from_result(result: &JsonValue) -> (r: Option<BatchUndoOp>)
    ensures
        match r {
            Some(op) => result_uuid_spec(*result, "from"@) matches Some(f) && result_uuid_spec(*result, "to"@)
                matches Some(t) && result_string_spec(*result, "kind"@) matches Some(k) && removes_edge(op, f, t, k),
            None => result_uuid_spec(*result, "from"@) is None || result_uuid_spec(*result, "to"@) is None
                || result_string_spec(*result, "kind"@) is None,
        },
{
    let from = match result_uuid(result, "from") {
        Some(f) => f,
        None => return None,
    };
    let to = match result_uuid(result, "to") {
        Some(t) => t,
        None => return None,
    };
    let kind = match result_string(result, "kind") {
        Some(k) => k,
        None => return None,
    };
    Some(BatchUndoOp::RemoveEdge { from, to, kind })
}

/// Whether an undo operation checks `agent` out of `ticket`.
pub open spec fn checks_out(op: BatchUndoOp, ticket: u128, agent: Seq<char>) -> bool {
    op matches BatchUndoOp::BoardCheckOut { ticket_id, agent_id } && ticket_id == ticket && agent_id@ == agent
}

/// Whether an undo operation checks `agent` back in to `ticket`.
pub open spec fn checks_in(op: BatchUndoOp, ticket: u128, agent: Seq<char>) -> bool {
    op matches BatchUndoOp::BoardCheckIn { ticket_id, agent_id } && ticket_id == ticket && agent_id@ == agent
}

/// The undo operation of a board check-in: check the agent out again. The
/// ticket and agent come from the result when it names the ticket (the
/// agent given to the command when the result names none); otherwise from
/// the command's ticket reference as the store resolved it.
pub fn board_check_in_undo(result: &JsonValue, resolved_ref: Option<u128>, agent_id: String) -> (r: Option<
    BatchUndoOp,
>)
    ensures
        match result_uuid_spec(*result, "ticket_id"@) {
            Some(t) => r matches Some(op) && checks_out(
                op,
                t,
                match result_string_spec(*result, "agent_id"@) {
                    Some(a) => a,
                    None => agent_id@,
                },
            ),
            None => match resolved_ref {
                Some(t) => r matches Some(op) && checks_out(op, t, agent_id@),
                None => r is None,
            },
        },
{
    match result_uuid(result, "ticket_id") {
        Some(ticket_id) => {
            let agent = match result_string(result, "agent_id") {
                Some(a) => a,
                None => agent_id,
            };
            Some(BatchUndoOp::BoardCheckOut { ticket_id, agent_id: agent })
        },
        None => match resolved_ref {
            Some(ticket_id) => Some(BatchUndoOp::BoardCheckOut { ticket_id, agent_id }),
            None => None,
        },
    }
}

/// The undo operation of a board check-out: check the agent in again. As
/// for a check-in, but an agent is needed: from the result, else the one
/// given to the command; without one there is nothing to undo.
pub fn board_check_out_undo(result: &JsonValue, resolved_ref: Option<u128>, agent_id: Option<String>) -> (r:
    Option<BatchUndoOp>)
    ensures
        match result_uuid_spec(*result, "ticket_id"@) {
            Some(t) => match result_string_spec(*result, "agent_id"@) {
                Some(a) => r matches Some(op) && checks_in(op, t, a),
                None => match agent_id {
                    Some(a) => r matches Some(op) && checks_in(op, t, a@),
                    None => r is None,
                },
            },
            None => match (resolved_ref, agent_id) {
                (Some(t), Some(a)) => r matches Some(op) && checks_in(op, t, a@),
                _ => r is None,
            },
        },
{
    match result_uuid(result, "ticket_id") {
        Some(ticket_id) => {
            let agent = match result_string(result, "agent_id") {
                Some(a) => a,
                None => match agent_id {
                    Some(a) => a,
                    None => return None,
                },
            };
            Some(BatchUndoOp::BoardCheckIn { ticket_id, agent_id: agent })
        },
        None => match (resolved_ref, agent_id) {
            (Some(ticket_id), Some(agent)) => Some(BatchUndoOp::BoardCheckIn { ticket_id, agent_id: agent }),
            _ => None,
        },
    }
}

/// The context of an update: restore the ticket's title (when it has one)
/// and state as the index holds them before the update.
pub fn update_undo_context(id: u128, title: Option<String>, state: Option<String>) -> (r: BatchUndoContext)
    ensures
        r matches BatchUndoContext::Update { id: i, saved_extra, saved_state } && i == id && saved_state == state
            && match title {
            Some(t) => {
                &&& saved_extra@.len() == 1
                &&& saved_extra@[0].0@ == "title"@
                &&& saved_extra@[0].1 matches JsonValue::String(x) && x@ == t@
            },
            None => saved_extra@.len() == 0,
        },
{
    let mut saved_extra: Vec<(String, JsonValue)> = Vec::new();
    match title {
        Some(t) => saved_extra.push(("title".to_string(), JsonValue::String(t))),
        None => {},
    }
    BatchUndoContext::Update { id, saved_extra, saved_state: state }
}

/// The undo operation of a command, from its context and its result (see
/// each kind above); an update restores what its context saved.
pub fn batch_undo_from_result(context: BatchUndoContext, result: &JsonValue, resolved_ref: Option<u128>) -> (r:
    Option<BatchUndoOp>)
    ensures
        match context {
            BatchUndoContext::Create => r == create_undo_spec(*result),
            BatchUndoContext::Update { id, saved_extra, saved_state } => r == Some(
                BatchUndoOp::RestoreUpdate { id, saved_extra, saved_state },
            ),
            BatchUndoContext::Link => match r {
                Some(op) => result_uuid_spec(*result, "from"@) matches Some(f) && result_uuid_spec(*result, "to"@)
                    matches Some(t) && result_string_spec(*result, "kind"@) matches Some(k) && removes_edge(
                    op,
                    f,
                    t,
                    k,
                ),
                None => result_uuid_spec(*result, "from"@) is None || result_uuid_spec(*result, "to"@) is None
                    || result_string_spec(*result, "kind"@) is None,
            },
            BatchUndoContext::BoardCheckIn { ticket_ref, agent_id } => match result_uuid_spec(
                *result,
                "ticket_id"@,
            ) {
                Some(t) => r matches Some(op) && checks_out(
                    op,
                    t,
                    match result_string_spec(*result, "agent_id"@) {
                        Some(a) => a,
                        None => agent_id@,
                    },
                ),
                None => match resolved_ref {
                    Some(t) => r matches Some(op) && checks_out(op, t, agent_id@),
                    None => r is None,
                },
            },
            BatchUndoContext::BoardCheckOut { ticket_ref, agent_id } => match result_uuid_spec(
                *result,
                "ticket_id"@,
            ) {
                Some(t) => match result_string_spec(*result, "agent_id"@) {
                    Some(a) => r matches Some(op) && checks_in(op, t, a),
                    None => match agent_id {
                        Some(a) => r matches Some(op) && checks_in(op, t, a@),
                        None => r is None,
                    },
                },
                None => match (resolved_ref, agent_id) {
                    (Some(t), Some(a)) => r matches Some(op) && checks_in(op, t, a@),
                    _ => r is None,
                },
            },
        },
{
    match context {
        BatchUndoContext::Create => create_undo_from_result(result),
        BatchUndoContext::Update { id, saved_extra, saved_state } => Some(
            BatchUndoOp::RestoreUpdate { id, saved_extra, saved_state },
        ),
        BatchUndoContext::Link => link_undo_from_result(result),
        BatchUndoContext::BoardCheckIn { ticket_ref, agent_id } => board_check_in_undo(result, resolved_ref, agent_id),
        BatchUndoContext::BoardCheckOut { ticket_ref, agent_id } => board_check_out_undo(
            result,
            resolved_ref,
            agent_id,
        ),
    }
}
/// A command of a batch request sent to the HTTP service, with the ids it
/// acted on.
pub enum BatchCommandKind {
    Create { id: u128 },
    Update { id: u128 },
    Close { id: u128 },
    Cancel { id: u128 },
    Link { from: u128, to: u128, kind: String },
    Unlink,
}

/// What a ticket held before a command changed it: its extra fields and its
/// state.
pub type TicketSnapshot = (Vec<(String, JsonValue)>, Option<String>);

/// The undo operation of a command of an HTTP batch that succeeded: a
/// create is undone by deleting the ticket; an update, close or cancel by
/// restoring the snapshot taken before it (none when no snapshot could be
/// taken); a link by removing the edge; an unlink is not undone.
pub fn command_undo(cmd: BatchCommandKind, snapshot: Option<TicketSnapshot>) -> (r: Option<BatchUndoOp>)
    ensures
        match cmd {
            BatchCommandKind::Create { id } => r == Some(BatchUndoOp::Delete { id }),
            BatchCommandKind::Update { id } | BatchCommandKind::Close { id } | BatchCommandKind::Cancel { id } =>
                match snapshot {
                    Some((saved_extra, saved_state)) => r == Some(BatchUndoOp::RestoreUpdate { id, saved_extra, saved_state }),
                    None => r is None,
                },
            BatchCommandKind::Link { from, to, kind } => r == Some(BatchUndoOp::RemoveEdge { from, to, kind }),
            BatchCommandKind::Unlink => r is None,
        },
{
    match cmd {
        BatchCommandKind::Create { id } => Some(BatchUndoOp::Delete { id }),
        BatchCommandKind::Update { id } | BatchCommandKind::Close { id } | BatchCommandKind::Cancel { id } => {
            match snapshot {
                Some((saved_extra, saved_state)) => Some(BatchUndoOp::RestoreUpdate { id, saved_extra, saved_state }),
                None => None,
            }
        },
        BatchCommandKind::Link { from, to, kind } => Some(BatchUndoOp::RemoveEdge { from, to, kind }),
        BatchCommandKind::Unlink => None,
    }
}

/// The state a batch `close` moves a ticket to: the one asked for, else
/// `done`.
pub fn close_target(target_state: Option<&str>) -> (r: &str)
    ensures
        r@ == match target_state {
            Some(t) => t@,
            None => "done"@,
        },
{
    match target_state {
        Some(t) => t,
        None => "done",
    }
}

/// The fields a batch `cancel` writes: the reason, when one is given.
pub fn cancel_patch(reason: Option<String>) -> (r: Vec<(String, JsonValue)>)
    ensures
        match reason {
            Some(text) => r@.len() == 1 && r@[0].0@ == "cancel_reason"@ && r@[0].1 == JsonValue::String(text),
            None => r@.len() == 0,
        },
{
    let mut patch: Vec<(String, JsonValue)> = Vec::new();
    match reason {
        Some(text) => {
            let key = String::from_str("cancel_reason");
            proof {
                reveal_strlit("cancel_reason");
            }
            patch.push((key, JsonValue::String(text)));
        },
        None => {},
    }
    patch
}

/// How a batch request is answered once the batch is over.
pub struct BatchReply {
    /// 200 when every command succeeded, 422 when one failed.
    pub http_status: u16,
    /// `ok` or `error`.
    pub status: &'static str,
    /// The index of the command that failed.
    pub failed_at: Option<usize>,
    /// How many commands succeeded (and so how many results are reported).
    pub completed: usize,
    /// How many commands the batch had.
    pub total: usize,
    /// Whether every undo operation of a failed batch was applied without
    /// error.
    pub rolled_back: Option<bool>,
    /// The index each reported result carries: its command's position,
    /// `0` up to `completed`.
    pub result_indexes: Vec<usize>,
}

/// `0, 1, ..., n - 1`.
fn indexes_up_to(n: usize) -> (r: Vec<usize>)
    ensures
        r@ == Seq::new(n as nat, |i: int| i as usize),
{
    let mut r: Vec<usize> = Vec::new();
    let mut i: usize = 0;
    while i < n
        invariant
            i <= n,
            r@ == Seq::new(i as nat, |k: int| k as usize),
        decreases n - i,
    {
        r.push(i);
        i = i + 1;
        assert(r@ =~= Seq::new(i as nat, |k: int| k as usize));
    }
    r
}

/// The answer to a batch of `total` commands that ended with `action`:
/// when all succeeded, 200 and `ok` with every command counted; when the
/// command at `failed_at` failed, 422 and `error` with the commands before it
/// counted as completed and the rollback reported as done exactly when
/// applying its undo operations gave no error. Each reported result carries
/// its command's index.
pub fn batch_reply(action: &BatchAction, total: usize, rollback_error_count: usize) -> (r: BatchReply)
    requires
        !(action is Dispatch),
    ensures
        r.total == total,
        r.result_indexes@ == Seq::new(r.completed as nat, |i: int| i as usize),
        action is Finished ==> {
            &&& r.http_status == 200
            &&& r.status@ == "ok"@
            &&& r.failed_at is None
            &&& r.completed == total
            &&& r.rolled_back is None
        },
        action matches BatchAction::RollBack { failed_at, undos } ==> {
            &&& r.http_status == 422
            &&& r.status@ == "error"@
            &&& r.failed_at == Some(failed_at as usize)
            &&& r.completed == failed_at
            &&& r.rolled_back == Some(rollback_error_count == 0)
        },
{
    match action {
        BatchAction::RollBack { failed_at, undos: _ } => BatchReply {
            http_status: 422,
            status: "error",
            failed_at: Some(*failed_at),
            completed: *failed_at,
            total,
            rolled_back: Some(rollback_error_count == 0),
            result_indexes: indexes_up_to(*failed_at),
        },
        _ => BatchReply {
            http_status: 200,
            status: "ok",
            failed_at: None,
            completed: total,
            total,
            rolled_back: None,
            result_indexes: indexes_up_to(total),
        },
    }
}

} // verus!
