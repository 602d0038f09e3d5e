use ticket::watch::{find_ticket_root, reconcile_outcome, reconcile_plan, ReconcilePlan};

fn path(parts: &[&str]) -> Vec<String> {
    parts.iter().map(|p| p.to_string()).collect()
}

#[test]
fn find_ticket_root_returns_uuid_ancestor() {
    let nested = path(&["tmp", "work", "123e4567-e89b-12d3-a456-426614174000", "child", "ticket.toml"]);
    assert_eq!(find_ticket_root(&nested), Some(3));
    assert_eq!(nested[..3].last().unwrap(), "123e4567-e89b-12d3-a456-426614174000");
}

#[test]
fn find_ticket_root_prefers_the_deepest_uuid_component() {
    let nested = path(&[
        "123e4567-e89b-12d3-a456-426614174000",
        "parts",
        "223e4567-e89b-12d3-a456-426614174000",
        "part.md",
    ]);
    assert_eq!(find_ticket_root(&nested), Some(3));
    assert_eq!(find_ticket_root(&path(&["tmp", "unrelated", "notes.txt"])), None);
    assert_eq!(find_ticket_root(&Vec::new()), None);
}

#[test]
fn paths_outside_ticket_folders_call_for_a_full_scan() {
    let pending = vec![path(&["tmp", "unrelated", "notes.txt"])];
    assert!(matches!(reconcile_plan(&pending), ReconcilePlan::FullScan));
    assert!(matches!(reconcile_plan(&Vec::new()), ReconcilePlan::FullScan));
}

#[test]
fn changed_ticket_files_target_their_folder_once() {
    let folder = "123e4567-e89b-12d3-a456-426614174000";
    let pending = vec![
        path(&["tickets", folder, "ticket.toml"]),
        path(&["tmp", "notes.txt"]),
        path(&["tickets", folder, "parts", "a.md"]),
    ];
    match reconcile_plan(&pending) {
        ReconcilePlan::Targeted(roots) => {
            assert_eq!(roots, vec![path(&["tickets", folder])]);
        },
        ReconcilePlan::FullScan => panic!("a ticket folder changed"),
    }
}

#[test]
fn targeted_folders_come_in_the_order_paths_first_name_them() {
    let a = "123e4567-e89b-12d3-a456-426614174000";
    let b = "223e4567-e89b-12d3-a456-426614174000";
    let pending = vec![
        path(&["tickets", b, "ticket.toml"]),
        path(&["tickets", a, "ticket.toml"]),
        path(&["tickets", b, "description.md"]),
    ];
    match reconcile_plan(&pending) {
        ReconcilePlan::Targeted(roots) => {
            assert_eq!(roots, vec![path(&["tickets", b]), path(&["tickets", a])]);
        },
        ReconcilePlan::FullScan => panic!("ticket folders changed"),
    }
}

#[test]
fn reconcile_outcome_counts_integrated_folders_or_reports_the_scan() {
    let a = "123e4567-e89b-12d3-a456-426614174000";
    let b = "223e4567-e89b-12d3-a456-426614174000";
    let targeted = reconcile_plan(&vec![path(&["t", a, "x"]), path(&["t", b, "y"])]);
    let outcome = reconcile_outcome::<String>(&targeted, None, &vec![true, false]);
    assert!(!outcome.fallback_scan);
    assert_eq!(outcome.targeted_paths, 2);
    assert_eq!(outcome.integrated_orphans, 1);
    assert!(outcome.diagnostics.is_empty());

    let full = reconcile_plan(&vec![path(&["tmp", "notes.txt"])]);
    let scanned = reconcile_outcome(&full, Some(vec!["bad manifest".to_string()]), &Vec::new());
    assert!(scanned.fallback_scan);
    assert_eq!(scanned.targeted_paths, 0);
    assert_eq!(scanned.integrated_orphans, 0);
    assert_eq!(scanned.diagnostics, vec!["bad manifest".to_string()]);
    let failed = reconcile_outcome::<String>(&full, None, &Vec::new());
    assert!(failed.fallback_scan && failed.diagnostics.is_empty());
}
