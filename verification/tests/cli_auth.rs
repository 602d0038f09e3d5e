use ticket::auth::{authorize, extract_bearer_token, AuthDecision, TokenSet};
use ticket::cli::{
    camel_to_kebab, dry_run_action, dry_run_command_payload, forbidden_batch_message, machine_output_format, CommandKind, DanglingStrategy,
    MachineOutputFormat, ReproOutcome,
};
use ticket::serve::{move_step, next_event_id, MoveStep, FIRST_EVENT_ID};

#[test]
fn token_set_holds_each_token_once() {
    let set = TokenSet::new(vec!["a".to_string(), "b".to_string(), "a".to_string()]);
    assert_eq!(set.len(), 2);
    assert!(set.contains("a"));
    assert!(set.contains("b"));
    assert!(!set.contains("c"));
    assert!(!set.is_empty());
    assert!(TokenSet::new(Vec::new()).is_empty());
    let one = TokenSet::single("secret".to_string());
    assert_eq!(one.len(), 1);
    assert!(one.contains("secret"));
    assert!(!one.contains("Secret"));
}

#[test]
fn bearer_token_is_read_from_header() {
    assert_eq!(extract_bearer_token("Bearer abc"), Some("abc".to_string()));
    assert_eq!(extract_bearer_token("Bearer   abc  "), Some("abc".to_string()));
    assert_eq!(extract_bearer_token("Bearer "), Some(String::new()));
    assert_eq!(extract_bearer_token("bearer abc"), None);
    assert_eq!(extract_bearer_token("Basic abc"), None);
    assert_eq!(extract_bearer_token("Bear"), None);
}

#[test]
fn authorization_decisions() {
    let set = TokenSet::single("t0k".to_string());
    assert_eq!(authorize(&set, Some("Bearer t0k")), AuthDecision::Allow);
    assert_eq!(authorize(&set, Some("Bearer other")), AuthDecision::InvalidToken);
    assert_eq!(authorize(&set, Some("Token t0k")), AuthDecision::MissingToken);
    assert_eq!(authorize(&set, None), AuthDecision::MissingToken);
}

#[test]
fn machine_output_prefers_json() {
    assert_eq!(machine_output_format(true, true), Some(MachineOutputFormat::Json));
    assert_eq!(machine_output_format(false, true), Some(MachineOutputFormat::Toon));
    assert_eq!(machine_output_format(false, false), None);
}

#[test]
fn command_names_are_kebab_case() {
    assert_eq!(camel_to_kebab("ReadyOverview"), "ready-overview");
    assert_eq!(camel_to_kebab("Next"), "next");
    assert_eq!(camel_to_kebab("PruneDangling"), "prune-dangling");
    assert_eq!(camel_to_kebab(""), "");
}

#[test]
fn enum_names() {
    assert_eq!(ReproOutcome::Reproduced.as_str(), "reproduced");
    assert_eq!(ReproOutcome::NotReproduced.as_str(), "not_reproduced");
    assert_eq!(ReproOutcome::Intermittent.as_str(), "intermittent");
    assert_eq!(ReproOutcome::Fixed.as_str(), "fixed");
    assert_eq!(DanglingStrategy::Unlink.as_str(), "unlink");
    assert_eq!(DanglingStrategy::ReconcileOnly.as_str(), "reconcile_only");
    assert!(DanglingStrategy::Unlink.mutates());
    assert!(!DanglingStrategy::ReconcileOnly.mutates());
}

#[test]
fn event_ids_increase() {
    let mut counter: u64 = 1;
    assert_eq!(next_event_id(&mut counter), 1);
    assert_eq!(next_event_id(&mut counter), 2);
    assert_eq!(counter, 3);
    let mut top = u64::MAX;
    assert_eq!(next_event_id(&mut top), u64::MAX);
    assert_eq!(top, 0);
}

#[test]
fn move_request_answers_with_plan_for_dry_runs_and_unsupported_moves() {
    match move_step(true, true) {
        MoveStep::Plan { http_status, status } => {
            assert_eq!(http_status, 200);
            assert_eq!(status, "ok");
        },
        MoveStep::Apply => panic!("a dry run never applies"),
    }
    match move_step(false, false) {
        MoveStep::Plan { http_status, status } => {
            assert_eq!(http_status, 409);
            assert_eq!(status, "blocked");
        },
        MoveStep::Apply => panic!("an unsupported move never applies"),
    }
    assert!(matches!(move_step(false, true), MoveStep::Apply));
}

#[test]
fn dry_runs_describe_mutating_commands_only() {
    assert_eq!(dry_run_action(CommandKind::Create), Some(("create", "create ticket")));
    assert_eq!(dry_run_action(CommandKind::AddRoot), Some(("add_root", "register scan root")));
    assert_eq!(dry_run_action(CommandKind::Cancel), Some(("cancel", "cancel ticket via state transition")));
    assert_eq!(dry_run_action(CommandKind::Get), None);
    assert_eq!(dry_run_action(CommandKind::Status), None);
}

#[test]
fn batch_refuses_session_and_admin_commands() {
    assert_eq!(forbidden_batch_message(CommandKind::Batch), Some("'batch' cannot be nested"));
    assert_eq!(forbidden_batch_message(CommandKind::Leases), Some("lease commands cannot be used in a batch"));
    assert_eq!(
        forbidden_batch_message(CommandKind::Workspace),
        Some("'workspace' policy commands cannot be used in a batch")
    );
    assert_eq!(forbidden_batch_message(CommandKind::Update), None);
}

#[test]
fn dry_run_payload_is_returned_for_mutating_command() {
    let payload = dry_run_command_payload(CommandKind::Delete).expect("delete should be dry-runnable");
    assert_eq!(payload.dry_run, true);
    assert_eq!(payload.command, "delete");
    assert_eq!(payload.status, "ok");
    assert_eq!(payload.would_execute, "permanently delete ticket");
}

#[test]
fn dry_run_payload_is_none_for_read_only_command() {
    let payload = dry_run_command_payload(CommandKind::Leases);
    assert!(payload.is_none());
}

#[test]
fn event_ids_start_at_one_and_count_up() {
    let mut counter = FIRST_EVENT_ID;
    assert_eq!(next_event_id(&mut counter), 1);
    assert_eq!(next_event_id(&mut counter), 2);
    assert_eq!(next_event_id(&mut counter), 3);
}
