use pebble::diagnostics::{collect_diagnostics, diagnostics_output, repair_graph_at, repair_node_at};
use pebble::graph::TaskGraph;
use pebble::models::{TaskFrontmatter, TaskNode, TaskStatus};

fn parse_rfc3339(text: &str) -> Result<pebble::models::Timestamp, String> {
    let t = chrono::DateTime::parse_from_rfc3339(text).map_err(|e| e.to_string())?;
    Ok(pebble::models::Timestamp { secs: t.timestamp(), nanos: t.timestamp_subsec_nanos() })
}


fn node(id: &str, needs: Vec<&str>, with_created: bool) -> TaskNode {
    TaskNode {
        path: format!("/w/tasks/{id}.md"),
        body: String::new(),
        frontmatter: TaskFrontmatter {
            id: id.to_string(),
            title: id.to_string(),
            status: TaskStatus::todo(),
            priority: None,
            created_at: if with_created { Some(parse_rfc3339("2026-01-01T00:00:00Z").unwrap()) } else { None },
            modified_at: None,
            resolved_at: None,
            needs: needs.into_iter().map(|s| s.to_string()).collect(),
            tags: vec![],
            extra: vec![],
        },
    }
}

#[test]
fn healthy_graph_has_no_findings() {
    let graph = TaskGraph::new(vec![node("A", vec![], true), node("B", vec!["A"], true)]);
    let out = diagnostics_output(&graph, "/w");
    assert!(out.ok);
    assert!(out.errors.is_empty());
}

#[test]
fn findings_cover_each_kind_sorted_by_file_then_message() {
    let mut a = node("A", vec!["Z"], false);
    a.frontmatter.extra = vec![("colour".into(), "\"red\"".into())];
    let graph = TaskGraph::new_with_duplicates(vec![a, node("B", vec![], true)], vec!["D".into()]);
    let errors = collect_diagnostics(&graph, "/w");
    let seen: Vec<(String, String, Option<String>)> =
        errors.iter().map(|e| (e.file.clone(), e.message.clone(), e.code.clone())).collect();
    assert_eq!(
        seen,
        vec![
            ("<multiple files>".to_string(), "Duplicate task ID found: 'D'".to_string(), Some("duplicate_id".to_string())),
            (
                "tasks/A.md".to_string(),
                "Dangling reference in 'needs': 'Z' not found".to_string(),
                Some("dangling_need".to_string())
            ),
            (
                "tasks/A.md".to_string(),
                "Missing required frontmatter key: 'created_at'".to_string(),
                Some("missing_created_at".to_string())
            ),
            ("tasks/A.md".to_string(), "Unknown frontmatter key: 'colour'".to_string(), Some("unknown_key".to_string())),
        ]
    );
    assert!(errors.iter().all(|e| e.line.is_none()));
}

#[test]
fn cycles_are_reported_once_per_member() {
    let graph = TaskGraph::new(vec![
        node("B", vec!["A"], true),
        node("A", vec!["B"], true),
        node("C", vec!["C"], true),
        node("D", vec!["A"], true),
    ]);
    let errors = collect_diagnostics(&graph, "/elsewhere");
    let seen: Vec<(String, String)> = errors.iter().map(|e| (e.file.clone(), e.message.clone())).collect();
    assert_eq!(
        seen,
        vec![
            ("/w/tasks/A.md".to_string(), "Dependency cycle detected: A, B".to_string()),
            ("/w/tasks/B.md".to_string(), "Dependency cycle detected: A, B".to_string()),
            ("/w/tasks/C.md".to_string(), "Dependency cycle detected: C".to_string()),
        ]
    );
    assert!(errors.iter().all(|e| e.code.as_deref() == Some("dependency_cycle")));
    assert!(!diagnostics_output(&graph, "/w").ok);
}

#[test]
fn repair_backfills_created_at_only_where_missing() {
    let now = parse_rfc3339("2026-05-05T05:05:05Z").unwrap();
    let mut n = node("A", vec![], false);
    assert!(repair_node_at(&mut n, now));
    assert_eq!(n.frontmatter.created_at, Some(now));
    assert!(!repair_node_at(&mut n, now));
    let mut graph = TaskGraph::new(vec![node("C", vec![], false), node("B", vec![], true), node("A", vec![], false)]);
    let fixed = repair_graph_at(&mut graph, now);
    assert_eq!(fixed, vec!["A".to_string(), "C".to_string()]);
    assert!(collect_diagnostics(&graph, "/w").is_empty());
}
