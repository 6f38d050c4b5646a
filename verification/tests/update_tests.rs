use pebble::graph::TaskGraph;
use pebble::models::{CommandError, Priority, TaskFrontmatter, TaskNode, TaskStatus, Timestamp};
use pebble::update::{apply_reverse_update, apply_update_mutations_at, UpdateMutations};

fn parse_rfc3339(text: &str) -> Result<pebble::models::Timestamp, String> {
    let t = chrono::DateTime::parse_from_rfc3339(text).map_err(|e| e.to_string())?;
    Ok(pebble::models::Timestamp { secs: t.timestamp(), nanos: t.timestamp_subsec_nanos() })
}


fn at(text: &str) -> Timestamp {
    parse_rfc3339(text).unwrap()
}

fn node(id: &str, needs: Vec<&str>) -> TaskNode {
    TaskNode {
        path: format!("{id}.md"),
        body: "Old body  \n".to_string(),
        frontmatter: TaskFrontmatter {
            id: id.to_string(),
            title: id.to_string(),
            status: TaskStatus::todo(),
            priority: Priority::new(3),
            created_at: Some(at("2026-01-01T00:00:00Z")),
            modified_at: None,
            resolved_at: None,
            needs: needs.into_iter().map(|s| s.to_string()).collect(),
            tags: vec!["x".into()],
            extra: vec![],
        },
    }
}

fn no_changes() -> UpdateMutations {
    UpdateMutations {
        title: None,
        status: None,
        priority: None,
        clear_priority: false,
        body: None,
        append_body: None,
        add_tags: vec![],
        remove_tags: vec![],
        add_needs: vec![],
        remove_needs: vec![],
    }
}

#[test]
fn closing_sets_resolved_and_reopening_clears_it() {
    let now = at("2026-02-02T00:00:00Z");
    let mut n = node("A", vec![]);
    let mut m = no_changes();
    m.status = Some(TaskStatus::done());
    apply_update_mutations_at(&mut n, m, now);
    assert_eq!(n.frontmatter.resolved_at, Some(now));
    assert_eq!(n.frontmatter.modified_at, Some(now));
    let later = at("2026-02-03T00:00:00Z");
    let mut m = no_changes();
    m.status = Some(TaskStatus::in_progress());
    apply_update_mutations_at(&mut n, m, later);
    assert_eq!(n.frontmatter.resolved_at, None);
    assert_eq!(n.frontmatter.modified_at, Some(later));
}

#[test]
fn tags_needs_priority_and_body_edits() {
    let now = at("2026-02-02T00:00:00Z");
    let mut n = node("A", vec!["B"]);
    let mut m = no_changes();
    m.add_tags = vec!["y".into(), "x".into()];
    m.remove_tags = vec!["x".into()];
    m.add_needs = vec!["C".into()];
    m.remove_needs = vec!["B".into()];
    m.clear_priority = true;
    m.append_body = Some("More".into());
    apply_update_mutations_at(&mut n, m, now);
    assert_eq!(n.frontmatter.tags, vec!["y".to_string()]);
    assert_eq!(n.frontmatter.needs, vec!["C".to_string()]);
    assert_eq!(n.frontmatter.priority, None);
    assert_eq!(n.body, "Old body\n\nMore");
}

#[test]
fn reverse_update_adds_and_removes_source_needs() {
    let now = at("2026-02-02T00:00:00Z");
    let mut graph = TaskGraph::new(vec![node("B", vec![]), node("C", vec!["A"])]);
    let mut source = node("A", vec![]);
    let changed = apply_reverse_update(&mut graph, &mut source, &vec!["B".into()], &vec!["C".into()], now).unwrap();
    assert_eq!(changed, vec![0, 1]);
    assert_eq!(graph.nodes[0].frontmatter.needs, vec!["A".to_string()]);
    assert_eq!(graph.nodes[1].frontmatter.needs, Vec::<String>::new());
    assert_eq!(graph.nodes[0].frontmatter.modified_at, Some(now));
    let err = apply_reverse_update(&mut graph, &mut source, &vec!["Z".into()], &vec![], now);
    match err {
        Err((changed, CommandError::Runtime(m))) => {
            assert_eq!(m, "Task 'Z' not found for --blocks");
            assert!(changed.is_empty());
        }
        _ => panic!("an unknown target is refused"),
    }
    assert_eq!(graph.nodes[0].frontmatter.needs, vec!["A".to_string()]);
}

#[test]
fn reverse_update_applies_targets_before_a_missing_one() {
    let now = at("2026-02-03T00:00:00Z");
    let mut graph = TaskGraph::new(vec![node("B", vec![]), node("C", vec!["A"]), node("D", vec!["A"])]);
    let mut source = node("A", vec![]);
    // B is edited before Z is found missing; nothing of --remove-blocks is done.
    match apply_reverse_update(&mut graph, &mut source, &vec!["B".into(), "Z".into()], &vec!["C".into()], now) {
        Err((changed, CommandError::Runtime(m))) => {
            assert_eq!(m, "Task 'Z' not found for --blocks");
            assert_eq!(changed, vec![0]);
        }
        _ => panic!("an unknown target is refused"),
    }
    assert_eq!(graph.nodes[0].frontmatter.needs, vec!["A".to_string()]);
    assert_eq!(graph.nodes[1].frontmatter.needs, vec!["A".to_string()]);
    // A missing target of --remove-blocks: all of --blocks and the removals before it are done.
    match apply_reverse_update(&mut graph, &mut source, &vec![], &vec!["C".into(), "Y".into(), "D".into()], now) {
        Err((changed, CommandError::Runtime(m))) => {
            assert_eq!(m, "Task 'Y' not found for --remove-blocks");
            assert_eq!(changed, vec![1]);
        }
        _ => panic!("an unknown target is refused"),
    }
    assert!(graph.nodes[1].frontmatter.needs.is_empty());
    assert_eq!(graph.nodes[2].frontmatter.needs, vec!["A".to_string()]);
}
