use pebble::components::{compute_sccs, is_cycle};
use pebble::graph::TaskGraph;
use pebble::models::{Priority, TaskFrontmatter, TaskNode, TaskStatus, Timestamp};

fn parse_rfc3339(text: &str) -> Result<pebble::models::Timestamp, String> {
    let t = chrono::DateTime::parse_from_rfc3339(text).map_err(|e| e.to_string())?;
    Ok(pebble::models::Timestamp { secs: t.timestamp(), nanos: t.timestamp_subsec_nanos() })
}


fn at(text: &str) -> Timestamp {
    parse_rfc3339(text).expect("Failed to parse datetime")
}

fn make_test_node(id: &str, status: TaskStatus, needs: Vec<&str>) -> TaskNode {
    TaskNode {
        path: String::new(),
        body: String::new(),
        frontmatter: TaskFrontmatter {
            id: id.to_string(),
            title: id.to_string(),
            status,
            priority: None,
            created_at: Some(at("2026-01-01T00:00:00Z")),
            modified_at: None,
            resolved_at: None,
            needs: needs.into_iter().map(|s| s.to_string()).collect(),
            tags: vec![],
            extra: vec![],
        },
    }
}

fn ids(nodes: &[&TaskNode]) -> Vec<String> {
    nodes.iter().map(|n| n.frontmatter.id.clone()).collect()
}

#[test]
fn test_absolute_readiness() {
    let nodes = vec![
        make_test_node("A", TaskStatus::todo(), vec![]),
        make_test_node("B", TaskStatus::todo(), vec!["A"]),
        make_test_node("C", TaskStatus::todo(), vec!["X"]), // Dangling pointer
    ];

    let graph = TaskGraph::new(nodes);
    assert!(graph.is_ready("A"));
    assert!(!graph.is_ready("B")); // A is not terminal
    assert!(!graph.is_ready("C")); // X does not exist
}

#[test]
fn test_dynamic_scoring() {
    let mut a = make_test_node("A", TaskStatus::todo(), vec![]);
    a.frontmatter.priority =
        Some(Priority::try_from(1).expect("Priority value should be within the valid range 0-99"));

    let mut b = make_test_node("B", TaskStatus::todo(), vec![]);
    b.frontmatter.priority =
        Some(Priority::try_from(5).expect("Priority value should be within the valid range 0-99"));

    let c = make_test_node("C", TaskStatus::todo(), vec!["B"]);
    let d = make_test_node("D", TaskStatus::todo(), vec!["B"]);

    let graph = TaskGraph::new(vec![a, b, c, d]);
    let next_tasks = graph.get_next_tasks();

    assert_eq!(next_tasks.len(), 2); // C and D are not ready

    assert_eq!(next_tasks[0].frontmatter.id, "A");
    assert_eq!(next_tasks[1].frontmatter.id, "B");
}

#[test]
fn test_dynamic_scoring_promotes_blocker_of_higher_priority_downstream_work() {
    let blocker = make_test_node("BLOCKER", TaskStatus::todo(), vec![]);

    let mut p0_task = make_test_node("P0-TASK", TaskStatus::todo(), vec!["BLOCKER"]);
    p0_task.frontmatter.priority =
        Some(Priority::try_from(0).expect("Priority value should be within the valid range 0-99"));

    let mut other = make_test_node("OTHER", TaskStatus::todo(), vec![]);
    other.frontmatter.priority =
        Some(Priority::try_from(1).expect("Priority value should be within the valid range 0-99"));

    let graph = TaskGraph::new(vec![blocker, p0_task, other]);
    let next_tasks = graph.get_next_tasks();

    assert_eq!(next_tasks.len(), 2); // P0-TASK is not ready
    assert_eq!(next_tasks[0].frontmatter.id, "BLOCKER");
    assert_eq!(next_tasks[1].frontmatter.id, "OTHER");
}

#[test]
fn test_dynamic_scoring_effective_priority_tie_breaks_by_base_priority() {
    let mut direct = make_test_node("DIRECT", TaskStatus::todo(), vec![]);
    direct.frontmatter.priority =
        Some(Priority::try_from(2).expect("Priority value should be within the valid range 0-99"));

    let mut blocker = make_test_node("BLOCKER", TaskStatus::todo(), vec![]);
    blocker.frontmatter.priority =
        Some(Priority::try_from(5).expect("Priority value should be within the valid range 0-99"));

    let mut downstream_p2 = make_test_node("DOWNSTREAM-P2", TaskStatus::todo(), vec!["BLOCKER"]);
    downstream_p2.frontmatter.priority =
        Some(Priority::try_from(2).expect("Priority value should be within the valid range 0-99"));

    let graph = TaskGraph::new(vec![direct, blocker, downstream_p2]);
    let next_tasks = graph.get_next_tasks();

    assert_eq!(next_tasks.len(), 2); // DOWNSTREAM-P2 is not ready
    assert_eq!(next_tasks[0].frontmatter.id, "DIRECT");
    assert_eq!(next_tasks[1].frontmatter.id, "BLOCKER");
}

#[test]
fn test_count_blocking_excludes_terminal_and_self() {
    let a = make_test_node("A", TaskStatus::todo(), vec![]);
    let b = make_test_node("B", TaskStatus::todo(), vec!["A"]);
    let c = make_test_node("C", TaskStatus::done(), vec!["B"]);
    let d = make_test_node("D", TaskStatus::todo(), vec!["C"]);
    let e = make_test_node("E", TaskStatus::todo(), vec!["B"]);

    let graph = TaskGraph::new(vec![a, b, c, d, e]);

    // Reachable non-terminal tasks from A are B and E.
    // C is terminal and stops traversal, so D is not counted.
    assert_eq!(graph.count_blocking("A"), 2);
}

#[test]
fn test_count_blocking_cycle_excludes_self() {
    let graph = TaskGraph::new(vec![
        make_test_node("A", TaskStatus::todo(), vec!["B"]),
        make_test_node("B", TaskStatus::todo(), vec!["A"]),
    ]);

    // A should only count B (self excluded despite the cycle).
    assert_eq!(graph.count_blocking("A"), 1);
}

#[test]
fn test_default_order_respects_needs_and_priority() {
    let mut a = make_test_node("A", TaskStatus::todo(), vec![]);
    a.frontmatter.priority = Some(Priority::try_from(5).expect("Valid priority"));

    let mut b = make_test_node("B", TaskStatus::todo(), vec![]);
    b.frontmatter.priority = Some(Priority::try_from(1).expect("Valid priority"));

    let c = make_test_node("C", TaskStatus::todo(), vec!["A", "B"]);

    let graph = TaskGraph::new(vec![c, a, b]);
    let tasks: Vec<&TaskNode> = graph.nodes.iter().collect();
    let ordered = graph
        .default_order(tasks)
        .expect("default_order should succeed");

    assert_eq!(ids(&ordered), vec!["B", "A", "C"]);
}

#[test]
fn test_default_order_cycle_grouping_created_at() {
    let mut a = make_test_node("A", TaskStatus::todo(), vec!["B"]);
    let mut b = make_test_node("B", TaskStatus::todo(), vec!["A"]);
    let c = make_test_node("C", TaskStatus::todo(), vec!["A"]);

    a.frontmatter.created_at = Some(at("2026-01-02T00:00:00Z"));
    b.frontmatter.created_at = Some(at("2026-01-01T00:00:00Z"));

    let graph = TaskGraph::new(vec![a, b, c]);
    let tasks: Vec<&TaskNode> = graph.nodes.iter().collect();
    let ordered = graph
        .default_order(tasks)
        .expect("default_order should succeed");

    assert_eq!(ids(&ordered), vec!["B", "A", "C"]);
}

#[test]
fn test_default_order_id_tiebreaker() {
    let a = make_test_node("A", TaskStatus::todo(), vec![]);
    let b = make_test_node("B", TaskStatus::todo(), vec![]);

    let graph = TaskGraph::new(vec![b, a]);
    let tasks: Vec<&TaskNode> = graph.nodes.iter().collect();
    let ordered = graph
        .default_order(tasks)
        .expect("default_order should succeed");

    assert_eq!(ids(&ordered), vec!["A", "B"]);
}

#[test]
fn test_cycle_readiness() {
    let graph = TaskGraph::new(vec![
        make_test_node("X", TaskStatus::todo(), vec!["Y"]),
        make_test_node("Y", TaskStatus::todo(), vec!["X"]),
    ]);
    // Neither task ever surfaces as ready
    assert!(!graph.is_ready("X"));
    assert!(!graph.is_ready("Y"));
    assert_eq!(graph.get_next_tasks().len(), 0);
}

#[test]
fn default_order_keeps_last_occurrence_of_repeated_ids() {
    let first = make_test_node("A", TaskStatus::todo(), vec![]);
    let mut second = make_test_node("A", TaskStatus::todo(), vec![]);
    second.body = "second".to_string();
    let graph = TaskGraph::new(vec![]);
    let ordered = graph
        .default_order(vec![&first, &second])
        .expect("default_order should succeed");
    assert_eq!(ordered.len(), 1);
    assert_eq!(ordered[0].body, "second");
}

#[test]
fn default_order_puts_dependencies_first_across_chains() {
    // C -> B -> A (each needs the previous); E independent with priority 0.
    let a = make_test_node("A", TaskStatus::todo(), vec![]);
    let b = make_test_node("B", TaskStatus::todo(), vec!["A"]);
    let c = make_test_node("C", TaskStatus::todo(), vec!["B"]);
    let mut e = make_test_node("E", TaskStatus::todo(), vec![]);
    e.frontmatter.priority = Some(Priority::try_from(0).expect("Valid priority"));
    let graph = TaskGraph::new(vec![c, b, e, a]);
    let tasks: Vec<&TaskNode> = graph.nodes.iter().collect();
    let ordered = graph.default_order(tasks).expect("default_order should succeed");
    // E has the best effective priority; the chain keeps its dependency order.
    assert_eq!(ids(&ordered), vec!["E", "A", "B", "C"]);
}

#[test]
fn next_tasks_skip_closed_and_blocked() {
    let graph = TaskGraph::new(vec![
        make_test_node("A", TaskStatus::done(), vec![]),
        make_test_node("B", TaskStatus::in_progress(), vec!["A"]),
        make_test_node("C", TaskStatus::todo(), vec!["B"]),
    ]);
    let next = graph.get_next_tasks();
    assert_eq!(ids(&next), vec!["B"]);
    assert!(graph.contains_key("C"));
    assert!(!graph.contains_key("Z"));
    assert_eq!(graph.get("B").map(|n| n.frontmatter.id.clone()), Some("B".to_string()));
}

#[test]
fn sccs_come_in_reverse_dependency_order() {
    // B needs A: B's component comes before A's.
    let graph = TaskGraph::new(vec![
        make_test_node("A", TaskStatus::todo(), vec![]),
        make_test_node("B", TaskStatus::todo(), vec!["A"]),
    ]);
    assert_eq!(compute_sccs(&graph), vec![vec![1], vec![0]]);

    // C <-> D form a cycle needing A; E needs the cycle.
    let graph = TaskGraph::new(vec![
        make_test_node("A", TaskStatus::todo(), vec![]),
        make_test_node("C", TaskStatus::todo(), vec!["A", "D"]),
        make_test_node("D", TaskStatus::todo(), vec!["C"]),
        make_test_node("E", TaskStatus::todo(), vec!["D"]),
    ]);
    let sccs = compute_sccs(&graph);
    assert_eq!(sccs, vec![vec![3], vec![1, 2], vec![0]]);
    assert!(is_cycle(&graph, &sccs[1]));
    assert!(!is_cycle(&graph, &sccs[0]));
}
