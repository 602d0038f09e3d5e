use ticket::human::{
    format_scalar, render_health_report, render_human_readable, short_ticket_value, write_next_up,
    BoardRecommendation, JsonNumber, JsonValue,
};

fn to_value(v: &JsonValue) -> serde_json::Value {
    match v {
        JsonValue::Null => serde_json::Value::Null,
        JsonValue::Bool(b) => serde_json::Value::Bool(*b),
        JsonValue::Number(n) => serde_json::from_str(&n.text).unwrap(),
        JsonValue::String(s) => serde_json::Value::String(s.clone()),
        JsonValue::Array(a) => serde_json::Value::Array(a.iter().map(to_value).collect()),
        JsonValue::Object(m, _) => {
            let mut map = serde_json::Map::new();
            for (k, x) in m {
                map.insert(k.clone(), to_value(x));
            }
            serde_json::Value::Object(map)
        },
    }
}

fn s(x: &str) -> JsonValue {
    JsonValue::String(x.to_string())
}

fn n(x: u64) -> JsonValue {
    JsonValue::Number(JsonNumber { text: x.to_string(), as_u64: Some(x) })
}

fn arr(items: Vec<JsonValue>) -> JsonValue {
    JsonValue::Array(items)
}

/// An object as the encoder iterates it: fields in key order.
fn obj(fields: Vec<(&str, JsonValue)>) -> JsonValue {
    let mut fields: Vec<(String, JsonValue)> = fields.into_iter().map(|(k, v)| (k.to_string(), v)).collect();
    fields.sort_by(|a, b| a.0.cmp(&b.0));
    let mut map = serde_json::Map::new();
    for (k, x) in &fields {
        map.insert(k.clone(), to_value(x));
    }
    let compact = serde_json::to_string(&serde_json::Value::Object(map)).unwrap();
    JsonValue::Object(fields, compact)
}

fn render(payload: &JsonValue) -> String {
    render_human_readable(payload, &[])
}

#[test]
fn flat_create_payload() {
    let payload = obj(vec![("command", s("create")), ("status", s("ok")), ("id", s("abc-123")), ("type", s("tracker-improvement"))]);
    let out = render(&payload);
    assert!(out.starts_with("create ok\n"));
    assert!(out.contains("id: abc-123"));
    assert!(out.contains("type: tracker-improvement"));
}

#[test]
fn nested_object_section() {
    let payload = obj(vec![
        ("command", s("get")),
        ("status", s("ok")),
        ("ticket", obj(vec![("id", s("abc-123")), ("created_at", s("2026-01-01"))])),
    ]);
    let out = render(&payload);
    assert!(out.contains("[ticket]"));
    assert!(out.contains("  id: abc-123"));
    assert!(out.contains("  created_at: 2026-01-01"));
}

#[test]
fn array_of_objects() {
    let payload = obj(vec![
        ("command", s("list")),
        ("status", s("ok")),
        ("count", n(2)),
        (
            "items",
            arr(vec![obj(vec![("id", s("aaa")), ("title", s("First"))]), obj(vec![("id", s("bbb")), ("title", s("Second"))])]),
        ),
    ]);
    let out = render(&payload);
    assert!(out.contains("count: 2"));
    assert!(out.contains("[items] (2)"));
    assert!(out.contains("  id: aaa"));
    assert!(out.contains("  title: First"));
    assert!(out.contains("  id: bbb"));
    assert!(out.contains("  title: Second"));
}

#[test]
fn scalar_array_inline() {
    let payload = obj(vec![("command", s("assets")), ("status", s("ok")), ("assets", arr(vec![s("a.png"), s("b.txt")]))]);
    let out = render(&payload);
    assert!(out.contains("assets: a.png, b.txt"));
}

#[test]
fn null_rendered_as_dash() {
    let payload = obj(vec![("command", s("get")), ("status", s("ok")), ("title", JsonValue::Null)]);
    let out = render(&payload);
    assert!(out.contains("title: -"));
}

#[test]
fn deeply_nested_status_payload() {
    let payload = obj(vec![
        ("command", s("status")),
        ("status", s("ok")),
        ("summary", obj(vec![("total", n(10)), ("done", n(3)), ("active", n(2)), ("planned", n(3))])),
        (
            "active",
            arr(vec![obj(vec![
                ("id", s("aaa")),
                ("title", s("Bug fix")),
                ("state", s("in-implementation")),
                ("component", s("core")),
            ])]),
        ),
        ("planned", arr(vec![])),
        ("parallel_groups", arr(vec![])),
    ]);
    let out = render(&payload);
    assert!(out.contains("[summary]"));
    assert!(out.contains("  total: 10"));
    assert!(out.contains("[active] (1)"));
    assert!(out.contains("  title: Bug fix"));
    assert!(out.contains("planned:"));
}

#[test]
fn nested_fields_in_get() {
    let payload = obj(vec![
        ("command", s("get")),
        ("status", s("ok")),
        (
            "ticket",
            obj(vec![
                ("id", s("abc")),
                ("fields", obj(vec![("priority", s("high")), ("tags", arr(vec![s("rust"), s("cli")]))])),
            ]),
        ),
    ]);
    let out = render(&payload);
    assert!(out.contains("[ticket]"));
    assert!(out.contains("  id: abc"));
    assert!(out.contains("  [fields]"));
    assert!(out.contains("    priority: high"));
    assert!(out.contains("    tags: rust, cli"));
}

#[test]
fn non_object_payload_fallback() {
    let payload = s("just a string");
    let out = render(&payload);
    assert_eq!(out.trim(), "just a string");
}

#[test]
fn dry_run_payload() {
    let payload = obj(vec![
        ("command", s("create")),
        ("dry_run", JsonValue::Bool(true)),
        ("status", s("ok")),
        ("would_execute", s("create ticket")),
    ]);
    let out = render(&payload);
    assert!(out.starts_with("create ok\n"));
    assert!(out.contains("dry_run: true"));
    assert!(out.contains("would_execute: create ticket"));
}

#[test]
fn audit_with_map_sections() {
    let payload = obj(vec![
        ("command", s("audit")),
        ("status", s("ok")),
        ("total", n(10)),
        ("active", n(8)),
        ("deleted", n(2)),
        ("by_state", obj(vec![("open", n(3)), ("in-implementation", n(2)), ("done", n(3))])),
        ("by_type", obj(vec![("tracker-improvement", n(10))])),
    ]);
    let out = render(&payload);
    assert!(out.contains("total: 10"));
    assert!(out.contains("[by_state]"));
    assert!(out.contains("  open: 3"));
    assert!(out.contains("[by_type]"));
    assert!(out.contains("  tracker-improvement: 10"));
}

#[test]
fn generic_rendering_is_exact() {
    let payload = obj(vec![
        ("command", s("get")),
        ("status", s("ok")),
        ("b", n(1)),
        ("t", obj(vec![("x", JsonValue::Null), ("y", arr(vec![obj(vec![("k", s("v"))]), n(7)]))])),
    ]);
    assert_eq!(render(&payload), "get ok\nb: 1\n\n[t]\n  x: -\n\n  [y] (2)\n    k: v\n\n    7\n");
    assert_eq!(render(&obj(vec![])), "? ?\n");
}

#[test]
fn scalar_formats() {
    assert_eq!(format_scalar(&JsonValue::Bool(false)), "false");
    assert_eq!(format_scalar(&arr(vec![n(1), JsonValue::Null, s("x")])), "1, -, x");
    let inner = obj(vec![("a", n(1))]);
    assert_eq!(format_scalar(&arr(vec![inner])), "{\"a\":1}");
}

#[test]
fn short_values() {
    assert_eq!(short_ticket_value("AAAAAAAA-1111-4222-8333-444444444444"), "aaaaaaaa");
    assert_eq!(short_ticket_value("0123456789abcdef0123456789abcdef"), "01234567");
    assert_eq!(short_ticket_value("not-a-uuid-at-all"), "not-a-uu");
    assert_eq!(short_ticket_value("abc"), "abc");
}

#[test]
fn blocker_tree_report() {
    let leaf = obj(vec![
        ("id", s("bbbbbbbb-0000-4000-8000-000000000000")),
        ("title", s("Leaf")),
        ("state", s("planned")),
        ("priority", s("high")),
        ("is_frontier", JsonValue::Bool(true)),
        ("remaining_blocker_count", n(0)),
        ("unresolved_frontier_leaf_count", n(1)),
        ("blocker_distance", n(0)),
    ]);
    let root = obj(vec![
        ("id", s("aaaaaaaa-0000-4000-8000-000000000000")),
        ("title", s("Root")),
        ("state", s("open")),
        ("remaining_blocker_count", n(1)),
        ("unresolved_frontier_leaf_count", n(1)),
        ("blocker_distance", n(1)),
        ("children", arr(vec![leaf])),
    ]);
    let item = obj(vec![
        ("rank", n(1)),
        ("id", s("bbbbbbbb-0000-4000-8000-000000000000")),
        ("title", s("Leaf")),
        ("state", s("planned")),
        ("priority", s("high")),
        ("dependee_count", n(1)),
        ("dependency_count", n(0)),
        ("remaining_blocker_count", n(0)),
        ("remaining_blockers", arr(vec![])),
        ("created_at", s("2026-05-16T12:00:00Z")),
    ]);
    let payload = obj(vec![
        ("command", s("blockers")),
        ("status", s("ok")),
        ("kind", s("blockers")),
        ("root", root),
        ("frontier_items", arr(vec![item])),
    ]);
    let out = render(&payload);
    let expected = "blockers ok\nkind: blockers\n\nBlocker Tree:\no aaaaaaaa  Root\n  state: open  priority: none  remaining_blockers: 1  frontier_leaves: 1  blocker_distance: 1\n  \\- * bbbbbbbb  Leaf\n     state: planned  priority: high  remaining_blockers: 0  frontier_leaves: 1  blocker_distance: 0\n\nFrontier Leaves:\n\n  #1  bbbbbbbb  Leaf\n  state: planned  priority: high  dependee_count: 1  dependency_count: 0\n  remaining_blockers: 0  blocker_ids: -\n  created_at: 2026-05-16T12:00:00Z\n  ticket_id: bbbbbbbb-0000-4000-8000-000000000000\n";
    assert_eq!(out, expected);
}

#[test]
fn empty_unlock_tree_report() {
    let payload = obj(vec![("command", s("unblocked_by")), ("status", s("ok"))]);
    assert_eq!(render(&payload), "unblocked_by ok\n\nFrontier Leaves:\n  (no frontier leaves)\n");
}

#[test]
fn health_report_sorts_by_severity() {
    let finding = |sev: Option<&str>, id: &str| {
        let mut f = vec![("check", s("c")), ("short_id", s(id)), ("title", s("T")), ("message", s("m"))];
        if let Some(sev) = sev {
            f.push(("severity", s(sev)));
        }
        obj(f)
    };
    let payload = obj(vec![
        ("command", s("health")),
        ("tickets_checked", n(3)),
        ("finding_count", n(3)),
        ("findings", arr(vec![finding(None, "i1"), finding(Some("warning"), "w1"), finding(Some("error"), "e1")])),
        ("summary", obj(vec![("error", n(1)), ("warning", n(1)), ("info", n(1))])),
    ]);
    let out = render(&payload);
    let expected = "Health check: 3 tickets checked, 3 finding(s)\n\n[ERR ] e1 T\n       c: m\n[WARN] w1 T\n       c: m\n[INFO] i1 T\n       c: m\n\nSummary: error: 1, info: 1, warning: 1\n";
    assert_eq!(out, expected);
    let clean = obj(vec![("tickets_checked", n(2)), ("finding_count", n(0))]);
    if let JsonValue::Object(m, _) = &clean {
        assert_eq!(render_health_report(m), "Health check: 2 tickets checked, 0 finding(s)\n\nAll checks passed.\n");
    }
}

#[test]
fn special_commands_use_prepared_text() {
    assert_eq!(render(&obj(vec![("command", s("describe"))])), "(no description)");
    assert_eq!(render(&obj(vec![("command", s("describe")), ("description", s("Body"))])), "Body");
    assert_eq!(render(&obj(vec![("command", s("subgraph")), ("tree", s("T\n"))])), "T\n");
    assert_eq!(render(&obj(vec![("command", s("board_show")), ("status", s("ok"))])), "board_show ok\n");
}

#[test]
fn next_up_lists_recommendations() {
    let mut out = String::new();
    write_next_up(&mut out, &[]);
    assert_eq!(out, "\nNext Up:\n  (no unblocked tickets ready right now)\n");
    let rec = BoardRecommendation {
        rank: 1,
        ticket_id: "0123456789abcdef".to_string(),
        title: "Do it".to_string(),
        state: Some("planned".to_string()),
        priority: "high".to_string(),
        effort: None,
        dependency_count: 2,
        dependee_count: 3,
        became_actionable_at: None,
        created_at: "2026-03-05T07:04:00+01:00".to_string(),
    };
    let mut out = String::new();
    write_next_up(&mut out, &[rec]);
    assert_eq!(
        out,
        "\nNext Up:\n\n  #1  01234567  Do it\n  state: planned  priority: high  effort: -  dependee_count: 3  dependency_count: 2\n  created_at: Mar 5 2026 06:04 UTC\n  ticket_id: 0123456789abcdef\n"
    );
}

#[test]
fn rendering_ends_with_one_line_break() {
    let payload = obj(vec![("command", s("x")), ("status", s("ok")), ("note", s("trailing   \n\n"))]);
    let out = render(&payload);
    assert!(out.ends_with("trailing\n"));
    assert!(!out.ends_with("\n\n"));
}

#[test]
fn tree_text_has_two_lines_per_node() {
    let node = |title: &str, children: Vec<JsonValue>| {
        obj(vec![("id", s("cccccccc-0000-4000-8000-000000000000")), ("title", s(title)), ("children", arr(children))])
    };
    let root = node("Root", vec![node("A", vec![node("A1", vec![])]), node("B", vec![]), node("C", vec![])]);
    let payload = obj(vec![("command", s("unblocked_by")), ("status", s("ok")), ("root", root)]);
    let out = render(&payload);
    let start = out.find("Unlock Tree:\n").unwrap() + "Unlock Tree:\n".len();
    let end = out.find("\n\nFrontier Leaves:").unwrap() + 1;
    let tree = &out[start..end];
    assert_eq!(tree.lines().count(), 2 * 5);
    assert!(tree.lines().nth(0).unwrap().ends_with("Root"));
    assert!(tree.lines().nth(2).unwrap().ends_with("A"));
    assert!(tree.lines().nth(4).unwrap().ends_with("A1"));
    assert!(tree.lines().nth(6).unwrap().ends_with("B"));
    assert!(tree.lines().nth(8).unwrap().ends_with("C"));
}
