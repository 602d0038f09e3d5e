use ticket::health::{collect_findings, health_summary, ticket_findings, FindingSeverity, FindingStyle, HealthCheck};
use ticket::workflow::{EdgeRecord, IndexedTicket, WorkflowModel};

const A: u128 = 0xaaaa_aaaa_0000_4000_8000_0000_0000_0001;
const B: u128 = 0xbbbb_bbbb_0000_4000_8000_0000_0000_0002;
const C: u128 = 0xcccc_cccc_0000_4000_8000_0000_0000_0003;
const GONE: u128 = 0xdddd_dddd_0000_4000_8000_0000_0000_0004;

fn ticket(id: u128, title: Option<&str>, state: &str) -> IndexedTicket {
    IndexedTicket {
        id,
        type_id: "tracker-improvement".to_string(),
        title: title.map(str::to_string),
        state: Some(state.to_string()),
        created_at: 0,
    }
}

fn depends(from: u128, to: u128) -> EdgeRecord {
    EdgeRecord { from, to, kind: "depends_on".to_string() }
}

fn model(tickets: &[IndexedTicket], edges: &[EdgeRecord]) -> WorkflowModel {
    let states = vec![
        ("open".to_string(), 0usize),
        ("planned".to_string(), 1usize),
        ("in-implementation".to_string(), 2usize),
        ("in-review".to_string(), 3usize),
        ("done".to_string(), 4usize),
    ];
    WorkflowModel::build_from_parts(
        tickets.iter().map(|t| t.duplicate()).collect(),
        edges.iter().map(|e| EdgeRecord { from: e.from, to: e.to, kind: e.kind.clone() }).collect(),
        states,
        Vec::new(),
        Vec::new(),
        Vec::new(),
    )
}

const LONG: &str = "This description is comfortably longer than fifty bytes of text.";

#[test]
fn missing_and_short_descriptions_are_reported() {
    let t = ticket(A, Some("Alpha"), "open");
    let missing = ticket_findings(&t, &None, &Vec::new(), &[], &[], FindingStyle::Http);
    assert_eq!(missing.len(), 1);
    assert!(missing[0].check == HealthCheck::MissingDescription);
    assert!(missing[0].severity == FindingSeverity::Warning);
    assert_eq!(missing[0].message, "No description.md file - ticket lacks detailed context.");
    assert_eq!(missing[0].short_id, "aaaaaaaa");
    assert_eq!(missing[0].title, "Alpha");

    let mcp = ticket_findings(&t, &None, &Vec::new(), &[], &[], FindingStyle::Mcp);
    assert!(mcp[0].severity == FindingSeverity::Error);
    assert_eq!(mcp[0].message, "No description.md file \u{2014} ticket lacks detailed context.");

    let short = ticket_findings(&t, &Some("  tiny body \n".to_string()), &Vec::new(), &[], &[], FindingStyle::Http);
    assert_eq!(short.len(), 1);
    assert!(short[0].check == HealthCheck::ShortDescription);
    assert_eq!(short[0].message, "description.md is very short (9 chars) - consider adding more detail.");

    let fine = ticket_findings(&t, &Some(LONG.to_string()), &Vec::new(), &[], &[], FindingStyle::Http);
    assert!(fine.is_empty());
}

#[test]
fn missing_title_and_dangling_edges_are_errors() {
    let t = ticket(B, Some(""), "planned");
    let edges = vec![depends(B, GONE), depends(B, A), EdgeRecord { from: B, to: GONE, kind: "relates".to_string() }];
    let found = ticket_findings(&t, &Some(LONG.to_string()), &Vec::new(), &edges, &[A, B], FindingStyle::Http);
    assert_eq!(found.len(), 2);
    assert!(found[0].check == HealthCheck::MissingTitle);
    assert_eq!(found[0].title, "(none)");
    assert_eq!(found[0].message, "Ticket has no title.");
    assert!(found[1].check == HealthCheck::DanglingEdge);
    assert_eq!(found[1].title, "");
    assert_eq!(found[1].message, "depends_on edge points to dddddddd which is missing.");
}

#[test]
fn collected_findings_skip_finished_tickets_and_report_inversions() {
    let tickets = vec![ticket(A, Some("Dependent"), "in-review"), ticket(B, Some("Prerequisite"), "open"), ticket(C, None, "done")];
    let edges = vec![depends(A, B)];
    let model = model(&tickets, &edges);
    let descriptions = vec![Some(LONG.to_string()), Some(LONG.to_string()), None];
    let findings = collect_findings(&tickets, &descriptions, &edges, &[A, B, C], &[C], &model, FindingStyle::Http);
    assert_eq!(findings.len(), 1);
    assert!(findings[0].check == HealthCheck::DependencyConvergence);
    assert_eq!(findings[0].ticket_id, A);
    assert_eq!(
        findings[0].message,
        "Ticket depends on bbbbbbbb in earlier state 'open' while this ticket is 'in-review'."
    );
    assert_eq!(findings[0].inversion.as_ref().map(|i| i.prerequisite_id), Some(B));
    let summary = health_summary(&findings);
    assert_eq!(summary, vec![("dependency_convergence".to_string(), 1)]);
}

#[test]
fn summary_counts_each_kind_in_name_order() {
    let t = ticket(A, None, "open");
    let findings = ticket_findings(&t, &None, &Vec::new(), &[depends(A, GONE), depends(A, GONE)], &[A], FindingStyle::Http);
    let summary = health_summary(&findings);
    assert_eq!(
        summary,
        vec![
            ("dangling_edge".to_string(), 2),
            ("missing_description".to_string(), 1),
            ("missing_title".to_string(), 1),
        ]
    );
}
