use ticket::batch::{
    batch_undo_from_result, board_check_in_undo, board_check_out_undo, create_undo_from_result,
    link_undo_from_result, result_string, result_uuid, update_undo_context, BatchAction, BatchEvent, BatchRun,
    BatchUndoContext, BatchUndoOp, batch_reply, cancel_patch, close_target, command_undo, BatchCommandKind,
};
use ticket::human::JsonValue;

const TICKET: &str = "3f2a9c10-1111-4222-8333-444455556666";
const OTHER: &str = "00000000-0000-4000-8000-00000000000a";

fn id_of(text: &str) -> u128 {
    uuid::Uuid::parse_str(text).unwrap().as_u128()
}

fn s(x: &str) -> JsonValue {
    JsonValue::String(x.to_string())
}

fn obj(fields: Vec<(&str, JsonValue)>) -> JsonValue {
    JsonValue::Object(fields.into_iter().map(|(k, v)| (k.to_string(), v)).collect(), String::new())
}

fn delete_id(op: &BatchUndoOp) -> u128 {
    match op {
        BatchUndoOp::Delete { id } => *id,
        _ => panic!("expected a delete"),
    }
}

#[test]
fn failing_command_rolls_back_earlier_commands_last_first() {
    let (run, action) = BatchRun::start(4);
    assert!(matches!(action, BatchAction::Dispatch(0)));
    let (run, action) = run.record(BatchEvent::Succeeded(Some(BatchUndoOp::Delete { id: 1 })));
    assert!(matches!(action, BatchAction::Dispatch(1)));
    let (run, action) = run.record(BatchEvent::Succeeded(None));
    assert!(matches!(action, BatchAction::Dispatch(2)));
    let (run, action) = run.record(BatchEvent::Succeeded(Some(BatchUndoOp::Delete { id: 3 })));
    assert!(matches!(action, BatchAction::Dispatch(3)));
    let (run, action) = run.record(BatchEvent::Failed);
    assert!(run.is_finished());
    match action {
        BatchAction::RollBack { failed_at, undos } => {
            assert_eq!(failed_at, 3);
            assert_eq!(undos.iter().map(delete_id).collect::<Vec<_>>(), vec![3, 1]);
        },
        _ => panic!("expected a rollback"),
    }
}

#[test]
fn successful_batch_finishes_after_last_command() {
    let (run, action) = BatchRun::start(2);
    assert!(matches!(action, BatchAction::Dispatch(0)));
    let (run, action) = run.record(BatchEvent::Succeeded(Some(BatchUndoOp::Delete { id: 9 })));
    assert!(matches!(action, BatchAction::Dispatch(1)));
    let (run, action) = run.record(BatchEvent::Succeeded(None));
    assert!(matches!(action, BatchAction::Finished));
    assert!(run.is_finished());
    assert_eq!(run.total(), 2);
}

#[test]
fn empty_batch_is_finished_at_once() {
    let (run, action) = BatchRun::start(0);
    assert!(matches!(action, BatchAction::Finished));
    assert!(run.is_finished());
}

#[test]
fn first_command_failing_rolls_back_nothing() {
    let (run, _) = BatchRun::start(3);
    let (_, action) = run.record(BatchEvent::Failed);
    match action {
        BatchAction::RollBack { failed_at, undos } => {
            assert_eq!(failed_at, 0);
            assert!(undos.is_empty());
        },
        _ => panic!("expected a rollback"),
    }
}

#[test]
fn result_fields_are_read_as_strings_and_ids() {
    let result = obj(vec![("id", s(TICKET)), ("kind", s("depends_on")), ("count", JsonValue::Null)]);
    assert_eq!(result_uuid(&result, "id"), Some(id_of(TICKET)));
    assert_eq!(result_string(&result, "kind"), Some("depends_on".to_string()));
    assert_eq!(result_string(&result, "count"), None);
    assert_eq!(result_uuid(&result, "kind"), None);
    assert_eq!(result_uuid(&s(TICKET), "id"), None);
}

#[test]
fn create_is_undone_by_deleting_the_created_ticket() {
    let op = create_undo_from_result(&obj(vec![("id", s(TICKET))])).unwrap();
    assert_eq!(delete_id(&op), id_of(TICKET));
    assert!(create_undo_from_result(&obj(vec![("id", s("not-a-uuid"))])).is_none());
}

#[test]
fn link_is_undone_by_removing_the_edge() {
    let result = obj(vec![("from", s(TICKET)), ("to", s(OTHER)), ("kind", s("depends_on"))]);
    match link_undo_from_result(&result) {
        Some(BatchUndoOp::RemoveEdge { from, to, kind }) => {
            assert_eq!(from, id_of(TICKET));
            assert_eq!(to, id_of(OTHER));
            assert_eq!(kind, "depends_on");
        },
        _ => panic!("expected an edge removal"),
    }
    assert!(link_undo_from_result(&obj(vec![("from", s(TICKET)), ("to", s(OTHER))])).is_none());
}

#[test]
fn board_check_in_is_undone_by_checking_out() {
    let result = obj(vec![("ticket_id", s(TICKET)), ("agent_id", s("agent-r"))]);
    match board_check_in_undo(&result, None, "agent-c".to_string()) {
        Some(BatchUndoOp::BoardCheckOut { ticket_id, agent_id }) => {
            assert_eq!(ticket_id, id_of(TICKET));
            assert_eq!(agent_id, "agent-r");
        },
        _ => panic!("expected a check-out"),
    }
    match board_check_in_undo(&obj(vec![]), Some(7), "agent-c".to_string()) {
        Some(BatchUndoOp::BoardCheckOut { ticket_id, agent_id }) => {
            assert_eq!(ticket_id, 7);
            assert_eq!(agent_id, "agent-c");
        },
        _ => panic!("expected a check-out"),
    }
    assert!(board_check_in_undo(&obj(vec![]), None, "agent-c".to_string()).is_none());
}

#[test]
fn board_check_out_needs_an_agent_to_undo() {
    let named = obj(vec![("ticket_id", s(TICKET))]);
    assert!(board_check_out_undo(&named, None, None).is_none());
    match board_check_out_undo(&named, None, Some("agent-c".to_string())) {
        Some(BatchUndoOp::BoardCheckIn { ticket_id, agent_id }) => {
            assert_eq!(ticket_id, id_of(TICKET));
            assert_eq!(agent_id, "agent-c");
        },
        _ => panic!("expected a check-in"),
    }
    assert!(board_check_out_undo(&obj(vec![]), Some(7), None).is_none());
    assert!(board_check_out_undo(&obj(vec![]), Some(7), Some("a".to_string())).is_some());
}

#[test]
fn update_is_undone_by_restoring_title_and_state() {
    let context = update_undo_context(5, Some("Old title".to_string()), Some("open".to_string()));
    match batch_undo_from_result(context, &JsonValue::Null, None) {
        Some(BatchUndoOp::RestoreUpdate { id, saved_extra, saved_state }) => {
            assert_eq!(id, 5);
            assert_eq!(saved_state, Some("open".to_string()));
            assert_eq!(saved_extra.len(), 1);
            assert_eq!(saved_extra[0].0, "title");
            assert!(matches!(&saved_extra[0].1, JsonValue::String(t) if t == "Old title"));
        },
        _ => panic!("expected a restore"),
    }
    let untitled = update_undo_context(5, None, None);
    assert!(matches!(untitled, BatchUndoContext::Update { ref saved_extra, .. } if saved_extra.is_empty()));
}

#[test]
fn http_batch_commands_leave_the_undo_their_kind_calls_for() {
    assert!(matches!(command_undo(BatchCommandKind::Create { id: 7 }, None), Some(BatchUndoOp::Delete { id: 7 })));
    let snapshot = (vec![("priority".to_string(), JsonValue::String("high".to_string()))], Some("planned".to_string()));
    match command_undo(BatchCommandKind::Close { id: 9 }, Some(snapshot)) {
        Some(BatchUndoOp::RestoreUpdate { id, saved_extra, saved_state }) => {
            assert_eq!(id, 9);
            assert_eq!(saved_extra.len(), 1);
            assert_eq!(saved_state.as_deref(), Some("planned"));
        },
        _ => panic!("a close is undone by restoring the snapshot"),
    }
    assert!(command_undo(BatchCommandKind::Update { id: 9 }, None).is_none());
    assert!(matches!(
        command_undo(BatchCommandKind::Link { from: 1, to: 2, kind: "depends_on".to_string() }, None),
        Some(BatchUndoOp::RemoveEdge { from: 1, to: 2, .. })
    ));
    assert!(command_undo(BatchCommandKind::Unlink, None).is_none());
    assert_eq!(close_target(None), "done");
    assert_eq!(close_target(Some("cancelled")), "cancelled");
    assert_eq!(cancel_patch(None).len(), 0);
    let patch = cancel_patch(Some("duplicate".to_string()));
    assert_eq!(patch.len(), 1);
    assert_eq!(patch[0].0, "cancel_reason");
}

#[test]
fn batch_replies_with_422_and_counts_when_a_command_fails() {
    let (run, first) = BatchRun::start(3);
    assert!(matches!(first, BatchAction::Dispatch(0)));
    let (run, next) = run.record(BatchEvent::Succeeded(Some(BatchUndoOp::Delete { id: 1 })));
    assert!(matches!(next, BatchAction::Dispatch(1)));
    let (_run, end) = run.record(BatchEvent::Failed);
    let reply = batch_reply(&end, 3, 0);
    assert_eq!(reply.http_status, 422);
    assert_eq!(reply.status, "error");
    assert_eq!(reply.failed_at, Some(1));
    assert_eq!(reply.completed, 1);
    assert_eq!(reply.total, 3);
    assert_eq!(reply.rolled_back, Some(true));
    assert_eq!(reply.result_indexes, vec![0]);
    let failed_rollback = batch_reply(&end, 3, 2);
    assert_eq!(failed_rollback.rolled_back, Some(false));
}

#[test]
fn batch_replies_with_200_when_every_command_succeeds() {
    let (run, _) = BatchRun::start(1);
    let (_run, end) = run.record(BatchEvent::Succeeded(None));
    let reply = batch_reply(&end, 1, 0);
    assert_eq!(reply.http_status, 200);
    assert_eq!(reply.status, "ok");
    assert_eq!(reply.completed, 1);
    assert_eq!(reply.failed_at, None);
    assert_eq!(reply.rolled_back, None);
    assert_eq!(reply.result_indexes, vec![0]);
}

#[test]
fn batch_results_are_numbered_by_command() {
    let (mut run, _) = BatchRun::start(3);
    let mut end = None;
    for _ in 0..3 {
        let (next_run, action) = run.record(BatchEvent::Succeeded(None));
        run = next_run;
        end = Some(action);
    }
    let end = end.unwrap();
    assert!(matches!(end, BatchAction::Finished));
    let reply = batch_reply(&end, 3, 0);
    assert_eq!(reply.completed, 3);
    assert_eq!(reply.result_indexes, vec![0, 1, 2]);
}
