use ticket::vscode::{
    build_state_groups, core_version, filter_indices, supports_browser_bridge, supports_file_browsing,
    supports_server_control, ticket_display_label, ticket_matches, ticket_viewer_url, DependencyMaps, EdgeRecord,
    HostKind, TicketSummary,
};

fn t(id: &str, title: &str, state: &str) -> TicketSummary {
    TicketSummary::new(id.into(), "tracker-improvement".into(), title.into(), state.into())
}

fn e(from: &str, to: &str) -> EdgeRecord {
    EdgeRecord::new(from.into(), to.into(), "depends_on".into())
}

#[test]
fn version_is_non_empty() {
    assert!(!core_version().is_empty());
}

#[test]
fn host_kind_gates() {
    assert!(supports_server_control(HostKind::DesktopNode));
    assert!(supports_server_control(HostKind::RemoteWorkspace));
    assert!(!supports_server_control(HostKind::BrowserWeb));
    assert!(!supports_server_control(HostKind::Virtual));
    assert!(supports_browser_bridge(HostKind::DesktopNode));
    assert!(!supports_browser_bridge(HostKind::RemoteWorkspace));
    assert!(supports_file_browsing(HostKind::DesktopNode));
    assert!(supports_file_browsing(HostKind::RemoteWorkspace));
    assert!(!supports_file_browsing(HostKind::BrowserWeb));
    assert!(!supports_file_browsing(HostKind::Virtual));
}

#[test]
fn filter_by_state() {
    let ticket = t("a", "Add feature", "planned");
    assert!(ticket_matches(&ticket, "planned", ""));
    assert!(!ticket_matches(&ticket, "done", ""));
    assert!(ticket_matches(&ticket, "", ""));
}

#[test]
fn filter_by_query() {
    let ticket = t("abc123", "Add feature", "planned");
    assert!(ticket_matches(&ticket, "", "feature"));
    assert!(ticket_matches(&ticket, "", "FEATURE"));
    assert!(!ticket_matches(&ticket, "", "missing"));
    assert!(ticket_matches(&ticket, "", "abc"));
}

#[test]
fn filter_combined() {
    let ticket = t("a", "Add feature", "planned");
    assert!(ticket_matches(&ticket, "planned", "feature"));
    assert!(!ticket_matches(&ticket, "done", "feature"));
}

#[test]
fn filter_query_lowercases_beyond_ascii() {
    let ticket = t("x1", "ÜBER Straße", "open");
    assert!(ticket_matches(&ticket, "", "über"));
    assert!(ticket_matches(&ticket, "", "STRASSE") == false);
    assert!(ticket_matches(&ticket, "", "X1"));
}

#[test]
fn filter_indices_keeps_matching_positions() {
    let tickets = vec![t("a", "Alpha", "planned"), t("b", "Beta", "done"), t("c", "Gamma", "planned")];
    assert_eq!(filter_indices(&tickets, "planned", ""), vec![0, 2]);
    assert_eq!(filter_indices(&tickets, "", "ET"), vec![1]);
    assert!(filter_indices(&tickets, "open", "").is_empty());
}

#[test]
fn dependency_maps_basic() {
    let tickets = vec![t("a", "Parent", "planned"), t("b", "Child", "planned")];
    let edges = vec![e("a", "b")];
    let maps = DependencyMaps::build(&tickets, &edges);
    assert_eq!(maps.dependencies("a"), Some(&vec!["b".to_string()]));
    assert_eq!(maps.parents("b"), Some(&vec!["a".to_string()]));
    assert!(maps.dependencies("b").is_none());
    assert!(maps.parents("a").is_none());
}

#[test]
fn dependency_maps_skips_unknown() {
    let tickets = vec![t("a", "A", "planned")];
    let edges = vec![e("a", "unknown")];
    let maps = DependencyMaps::build(&tickets, &edges);
    assert!(maps.dependencies("a").is_none());
}

#[test]
fn dependency_maps_skips_non_depends_on() {
    let tickets = vec![t("a", "A", "planned"), t("b", "B", "planned")];
    let edges = vec![EdgeRecord::new("a".into(), "b".into(), "linked".into())];
    let maps = DependencyMaps::build(&tickets, &edges);
    assert!(maps.dependencies("a").is_none());
}

#[test]
fn dependency_maps_keep_edge_order() {
    let tickets = vec![t("a", "A", "planned"), t("b", "B", "planned"), t("c", "C", "open")];
    let edges = vec![e("a", "c"), e("b", "c"), e("a", "b")];
    let maps = DependencyMaps::build(&tickets, &edges);
    assert_eq!(maps.dependencies("a"), Some(&vec!["c".to_string(), "b".to_string()]));
    assert_eq!(maps.parents("c"), Some(&vec!["a".to_string(), "b".to_string()]));
    assert_eq!(maps.deps_of.len(), 2);
    assert_eq!(maps.parent_of.len(), 2);
}

#[test]
fn state_groups_roots() {
    let tickets = vec![t("a", "Parent", "planned"), t("b", "Child", "planned"), t("c", "Done", "done")];
    let edges = vec![e("a", "b")];
    let groups = build_state_groups(&tickets, &edges, &[], "", "");
    let done = groups.iter().find(|g| g.state == "done").unwrap();
    let ready = groups.iter().find(|g| g.state == "planned").unwrap();
    assert_eq!(done.total, 1);
    assert_eq!(ready.total, 2);
    assert_eq!(ready.root_ids, vec!["a"]);
}

#[test]
fn state_groups_schema_order() {
    let tickets = vec![t("a", "A", "done"), t("b", "B", "planned")];
    let order: Vec<String> = vec!["planned".into(), "done".into()];
    let groups = build_state_groups(&tickets, &[], &order, "", "");
    assert_eq!(groups[0].state, "planned");
    assert_eq!(groups[1].state, "done");
}

#[test]
fn state_groups_state_filter() {
    let tickets = vec![t("a", "A", "planned"), t("b", "B", "done")];
    let groups = build_state_groups(&tickets, &[], &[], "planned", "");
    assert_eq!(groups.len(), 1);
    assert_eq!(groups[0].state, "planned");
}

#[test]
fn state_groups_query_filter() {
    let tickets = vec![t("a", "Alpha feature", "planned"), t("b", "Beta thing", "planned")];
    let groups = build_state_groups(&tickets, &[], &[], "", "alpha");
    assert_eq!(groups.len(), 1);
    assert_eq!(groups[0].root_ids, vec!["a"]);
}

#[test]
fn state_groups_unlisted_states_follow_sorted() {
    let tickets = vec![
        t("a", "A", "zeta"),
        t("b", "B", "alpha"),
        t("c", "C", "planned"),
        t("d", "D", "alpha"),
    ];
    let order: Vec<String> = vec!["planned".into(), "missing".into(), "planned".into()];
    let groups = build_state_groups(&tickets, &[], &order, "", "");
    let names: Vec<&str> = groups.iter().map(|g| g.state.as_str()).collect();
    assert_eq!(names, vec!["planned", "alpha", "zeta"]);
    assert_eq!(groups[1].total, 2);
    assert_eq!(groups[1].root_ids, vec!["b", "d"]);
}

#[test]
fn url_format() {
    assert_eq!(
        ticket_viewer_url("http://localhost:3002", "default", "abc123"),
        "http://localhost:3002/?workspace=default&ticket=abc123"
    );
}

#[test]
fn display_label_with_title() {
    assert_eq!(ticket_display_label("abc123", "My ticket"), "My ticket");
}

#[test]
fn display_label_no_title() {
    assert_eq!(ticket_display_label("abcdef1234", ""), "(abcdef12)");
}

#[test]
fn display_label_short_id() {
    assert_eq!(ticket_display_label("ab", ""), "(ab)");
}

#[test]
fn display_label_counts_characters() {
    assert_eq!(ticket_display_label("ééééé", ""), "(ééééé)");
    assert_eq!(ticket_display_label("abcdefg€x", ""), "(abcdefg€)");
    assert_eq!(ticket_display_label("é1234567", ""), "(é1234567)");
}

#[test]
fn dependency_lookups_are_inverse() {
    let tickets = vec![t("a", "A", "open"), t("b", "B", "open"), t("c", "C", "open")];
    let edges = vec![e("a", "b"), e("c", "b"), e("b", "a"), e("a", "x")];
    let maps = DependencyMaps::build(&tickets, &edges);
    for from in ["a", "b", "c", "x"] {
        for to in ["a", "b", "c", "x"] {
            let forward = maps.dependencies(from).map_or(false, |v| v.iter().any(|x| x == to));
            let backward = maps.parents(to).map_or(false, |v| v.iter().any(|x| x == from));
            assert_eq!(forward, backward, "{from} -> {to}");
        }
    }
}

#[test]
fn empty_filters_match_everything() {
    for ticket in [t("", "", ""), t("id", "Ünïcode Title", "weird state")] {
        assert!(ticket_matches(&ticket, "", ""));
    }
}

#[test]
fn groups_without_schema_are_alphabetical_and_unique() {
    let tickets = vec![t("a", "A", "zeta"), t("b", "B", "beta"), t("c", "C", "alpha"), t("d", "D", "beta")];
    let groups = build_state_groups(&tickets, &[], &[], "", "");
    let names: Vec<&str> = groups.iter().map(|g| g.state.as_str()).collect();
    assert_eq!(names, vec!["alpha", "beta", "zeta"]);
    assert_eq!(groups.iter().map(|g| g.total).sum::<usize>(), 4);
}
