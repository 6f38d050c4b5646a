use pebble::commands::{config_get, config_values_map, resolve_tasks_dir, validate_task_references, RunContext};
use pebble::config::Config;
use pebble::graph::TaskGraph;
use pebble::inputs::ListOptions;
use pebble::listing::{list_tasks, next_task_line, search_tasks, task_list_line, ListSortField, SortSpec};
use pebble::models::{CommandError, Priority, TaskFrontmatter, TaskNode, TaskStatus};
use pebble::task_view::TaskObject;

fn parse_rfc3339(text: &str) -> Result<pebble::models::Timestamp, String> {
    let t = chrono::DateTime::parse_from_rfc3339(text).map_err(|e| e.to_string())?;
    Ok(pebble::models::Timestamp { secs: t.timestamp(), nanos: t.timestamp_subsec_nanos() })
}


fn make_test_node(id: &str, status: TaskStatus, needs: Vec<&str>) -> TaskNode {
    TaskNode {
        path: format!("{id}.md"),
        body: String::new(),
        frontmatter: TaskFrontmatter {
            id: id.to_string(),
            title: id.to_string(),
            status,
            priority: None,
            created_at: Some(parse_rfc3339("2026-01-01T00:00:00Z").expect("datetime should be valid ISO 8601")),
            modified_at: None,
            resolved_at: None,
            needs: needs.into_iter().map(|s| s.to_string()).collect(),
            tags: vec![],
            extra: vec![],
        },
    }
}

fn blocking_graph() -> TaskGraph {
    TaskGraph::new(vec![
        make_test_node("A", TaskStatus::todo(), vec![]),
        make_test_node("B", TaskStatus::todo(), vec!["A"]),
        make_test_node("C", TaskStatus::done(), vec!["A"]),
    ])
}

#[test]
fn api_test_blocking_list_excludes_terminal_dependents() {
    let graph = blocking_graph();
    let node = graph.get("A").expect("test node 'A' should exist");
    let obj = TaskObject::from_node(node, &graph, ".");
    let mut blocking = obj.blocking.clone();
    blocking.sort();
    assert_eq!(blocking, vec!["B"]);
}

#[test]
fn tests_test_blocking_list_excludes_terminal_dependents() {
    let graph = blocking_graph();
    let node = graph.get("A").expect("test node 'A' should exist");
    let obj = TaskObject::from_node(node, &graph, ".");
    let mut blocking = obj.blocking.clone();
    blocking.sort();
    assert_eq!(blocking, vec!["B"]);
}

#[test]
fn blocking_lists_a_dependent_once_per_listing() {
    let graph = TaskGraph::new(vec![
        make_test_node("A", TaskStatus::todo(), vec![]),
        make_test_node("X", TaskStatus::todo(), vec!["A", "A"]),
        make_test_node("D", TaskStatus::done(), vec!["A"]),
        make_test_node("Y", TaskStatus::in_progress(), vec!["A"]),
    ]);
    assert_eq!(graph.blocking("A"), vec!["X", "X", "D", "Y"]);
    assert!(graph.blocking("Y").is_empty());
    let a = graph.get("A").unwrap();
    let obj = TaskObject::from_node(a, &graph, ".");
    assert_eq!(obj.blocking, vec!["X", "X", "Y"]);
}

#[test]
fn task_object_reports_blockers_and_readiness() {
    let graph = blocking_graph();
    let b = graph.get("B").unwrap();
    let obj = TaskObject::from_node(b, &graph, ".");
    assert_eq!(obj.id, "B");
    assert_eq!(obj.blocked_by, vec!["A"]);
    assert!(!obj.is_ready);
    assert_eq!(obj.created_at, "2026-01-01T00:00:00+00:00");
    let a = graph.get("A").unwrap();
    assert!(TaskObject::from_node(a, &graph, ".").is_ready);
}

#[test]
fn validate_task_references_dedups_and_rejects_unknown() {
    let graph = blocking_graph();
    let ok = validate_task_references(&graph, vec!["B".into(), "A".into(), "B".into()], None, "--blocks");
    match ok {
        Ok(v) => assert_eq!(v, vec!["B".to_string(), "A".to_string()]),
        Err(_) => panic!("known targets are accepted"),
    }
    let err = validate_task_references(&graph, vec!["A".into(), "Z".into()], None, "--blocks");
    match err {
        Err(CommandError::Usage(e)) => assert!(e.0.contains("Z")),
        _ => panic!("an unknown target is a usage error"),
    }
}

#[test]
fn config_get_reads_known_keys_and_rejects_others() {
    let config = Config::default();
    assert_eq!(config_get(&config, "issue-prefix").unwrap(), "issue");
    assert_eq!(config_get(&config, "tasks-dir").unwrap(), "docs/pebble/");
    let err = config_get(&config, "nope").unwrap_err();
    assert!(err.0.starts_with("Unknown config key 'nope'. Supported keys: "));
    assert_eq!(config_values_map(&config).len(), 3);
}

#[test]
fn resolve_tasks_dir_prefers_override_then_root() {
    assert_eq!(resolve_tasks_dir("/work", &None, &Some("t".into()), "docs/pebble/"), "/work/t");
    assert_eq!(resolve_tasks_dir("/work", &None, &Some("/abs".into()), "docs/pebble/"), "/abs");
    assert_eq!(resolve_tasks_dir("/work/sub", &Some("/work".into()), &None, "docs/pebble/"), "/work/docs/pebble/");
    assert_eq!(resolve_tasks_dir("/work", &None, &None, "docs/pebble/"), "/work/docs/pebble/");
}

#[test]
fn ensure_project_needs_root_or_tasks_dir() {
    let ctx = RunContext {
        current_dir: "/w".into(),
        project_root: None,
        config: Config::default(),
        tasks_dir: "/w/docs/pebble/".into(),
        json: false,
    };
    assert!(ctx.ensure_project(true).is_ok());
    match ctx.ensure_project(false) {
        Err(CommandError::Runtime(m)) => assert!(m.starts_with("No pebble project found.")),
        _ => panic!("a missing project is an error"),
    }
}

#[test]
fn sort_spec_parses_fields_and_direction() {
    let s = SortSpec::parse("-priority").unwrap();
    assert_eq!(s.field, ListSortField::Priority);
    assert!(s.descending);
    let t = SortSpec::parse("title").unwrap();
    assert_eq!(t.field, ListSortField::Title);
    assert!(!t.descending);
    assert!(SortSpec::parse("colour").is_err());
}

fn options() -> ListOptions {
    ListOptions {
        statuses: vec![],
        tags: vec![],
        needs: vec![],
        priorities: vec![],
        is_ready: false,
        all: false,
        limit: None,
        sort: None,
    }
}

#[test]
fn list_hides_closed_tasks_unless_all() {
    let graph = blocking_graph();
    let listed = list_tasks(&graph, &options()).unwrap();
    let ids: Vec<&str> = listed.iter().map(|n| n.frontmatter.id.as_str()).collect();
    assert_eq!(ids, vec!["A", "B"]);
    let mut all = options();
    all.all = true;
    assert_eq!(list_tasks(&graph, &all).unwrap().len(), 3);
    let mut ready = options();
    ready.is_ready = true;
    let r = list_tasks(&graph, &ready).unwrap();
    assert_eq!(r.len(), 1);
    assert_eq!(r[0].frontmatter.id, "A");
}

#[test]
fn list_sorts_by_priority_and_limits() {
    let mut a = make_test_node("A", TaskStatus::todo(), vec![]);
    a.frontmatter.priority = Priority::new(5);
    let mut b = make_test_node("B", TaskStatus::todo(), vec![]);
    b.frontmatter.priority = Priority::new(1);
    let graph = TaskGraph::new(vec![a, b]);
    let mut o = options();
    o.sort = Some("priority".into());
    let ids: Vec<String> = list_tasks(&graph, &o).unwrap().iter().map(|n| n.frontmatter.id.clone()).collect();
    assert_eq!(ids, vec!["B", "A"]);
    o.limit = Some(1);
    assert_eq!(list_tasks(&graph, &o).unwrap().len(), 1);
    o.sort = Some("bogus".into());
    assert!(list_tasks(&graph, &o).is_err());
}

#[test]
fn search_matches_title_and_body_ignoring_case() {
    let mut a = make_test_node("A", TaskStatus::todo(), vec![]);
    a.frontmatter.title = "Fix the Parser".into();
    let mut b = make_test_node("B", TaskStatus::todo(), vec![]);
    b.body = "mentions PARSER in the body".into();
    let mut c = make_test_node("C", TaskStatus::done(), vec![]);
    c.frontmatter.title = "parser, but closed".into();
    let graph = TaskGraph::new(vec![a, b, c]);
    let found = search_tasks(&graph, "parser").unwrap();
    let ids: Vec<&str> = found.iter().map(|n| n.frontmatter.id.as_str()).collect();
    assert_eq!(ids, vec!["A", "B"]);
    let err = search_tasks(&graph, "nothing").unwrap_err();
    assert_eq!(err.0, "No tasks found matching query 'nothing'");
}

#[test]
fn output_lines_show_id_title_and_status() {
    let node = make_test_node("issue-1", TaskStatus::in_progress(), vec![]);
    assert_eq!(task_list_line(&node), "issue-1 issue-1 (InProgress)");
    assert_eq!(next_task_line(&node), "issue-1 issue-1");
}
