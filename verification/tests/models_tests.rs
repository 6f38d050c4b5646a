use pebble::models::{ClosedStatus, LiveStatus, Priority, TaskNode, TaskStatus};
use pebble::parser::{build_task_node, RawFrontmatter};
use std::mem;

#[test]
fn test_task_status_helpers() {
    assert!(TaskStatus::todo().is_actionable());
    assert!(TaskStatus::in_progress().is_actionable());
    assert!(!TaskStatus::done().is_actionable());
    assert!(!TaskStatus::canceled().is_actionable());

    assert!(TaskStatus::done().is_closed());
    assert!(TaskStatus::canceled().is_closed());
    assert!(!TaskStatus::todo().is_closed());
    assert!(!TaskStatus::in_progress().is_closed());

    assert_eq!(TaskStatus::todo().as_live(), Some(LiveStatus::Todo));
    assert_eq!(
        TaskStatus::in_progress().as_live(),
        Some(LiveStatus::InProgress)
    );
    assert_eq!(TaskStatus::done().as_live(), None);
    assert_eq!(TaskStatus::canceled().as_live(), None);

    assert_eq!(TaskStatus::done().as_closed(), Some(ClosedStatus::Done));
    assert_eq!(
        TaskStatus::canceled().as_closed(),
        Some(ClosedStatus::Canceled)
    );
    assert_eq!(TaskStatus::todo().as_closed(), None);
    assert_eq!(TaskStatus::in_progress().as_closed(), None);
}

#[test]
fn test_priority_try_from_u8_enforces_range() {
    assert_eq!(
        Priority::try_from(0u8).expect("Priority 0 is valid").get(),
        0
    );
    assert_eq!(
        Priority::try_from(99u8)
            .expect("Priority 99 is valid")
            .get(),
        99
    );
    assert!(Priority::try_from(100u8).is_err());
}

#[test]
fn test_priority_uses_u32_representation_size() {
    assert_eq!(
        mem::size_of::<Priority>(),
        mem::size_of::<u32>(),
        "Priority should use u32 representation"
    );
}

#[test]
fn test_priority_into_u32() {
    let p = Priority::new(42).expect("Priority 42 is valid");
    let v: u32 = p.into();
    assert_eq!(v, 42);
}

#[test]
fn task_status_names_round_trip() {
    for s in [
        TaskStatus::todo(),
        TaskStatus::in_progress(),
        TaskStatus::done(),
        TaskStatus::canceled(),
    ] {
        assert_eq!(TaskStatus::parse(s.as_str()), Ok(s));
    }
    assert_eq!(TaskStatus::todo().as_str(), "todo");
    assert_eq!(TaskStatus::in_progress().label(), "InProgress");
}

#[test]
fn task_status_parse_rejects_unknown_names() {
    let err = TaskStatus::parse("invalid_status").expect_err("unknown status is refused");
    assert_eq!(
        err,
        "invalid status 'invalid_status', expected one of: todo, in_progress, done, canceled"
    );
}

#[test]
fn priority_new_rejects_values_above_99() {
    assert!(Priority::new(99).is_some());
    assert!(Priority::new(100).is_none());
    assert_eq!(Priority::min_value().get(), 0);
}

/// Reads a status the way the command-line tool does: the JSON string is
/// decoded, and the name is checked by the library.
fn status_from_json(text: &str) -> Result<TaskStatus, String> {
    let name: String = serde_json::from_str(text).map_err(|e| e.to_string())?;
    TaskStatus::parse(&name)
}

/// Reads a frontmatter block the way the command-line tool does: the YAML is
/// read into a generic value, the priority checked against its range, and the
/// task built by the library.
fn frontmatter_from_yaml(yaml: &str) -> Result<TaskNode, String> {
    let value: serde_json::Value = serde_saphyr::from_str(yaml).map_err(|e| e.to_string())?;
    let text = |key: &str| value.get(key).and_then(|v| v.as_str()).map(|s| s.to_string());
    let list = |key: &str| -> Vec<String> {
        value
            .get(key)
            .and_then(|v| v.as_array())
            .map(|a| a.iter().filter_map(|x| x.as_str().map(|s| s.to_string())).collect())
            .unwrap_or_default()
    };
    let status = TaskStatus::parse(&text("status").unwrap_or_default())?;
    let priority = match value.get("priority").and_then(|v| v.as_u64()) {
        None => None,
        Some(n) => {
            let n = u32::try_from(n).map_err(|_| "priority: value out of range: 0..=99".to_string())?;
            Some(Priority::new(n).ok_or_else(|| "priority: value out of range: 0..=99".to_string())?)
        }
    };
    let raw = RawFrontmatter {
        id: text("id").unwrap_or_default(),
        title: text("title").unwrap_or_default(),
        status,
        priority,
        created_at: text("created_at"),
        modified_at: text("modified_at"),
        resolved_at: text("resolved_at"),
        needs: list("needs"),
        tags: list("tags"),
        extra: vec![],
    };
    build_task_node("task.md".to_string(), raw, String::new())
}

#[test]
fn test_task_status_deserialization() {
    assert_eq!(status_from_json("\"todo\"").expect("Should deserialize todo"), TaskStatus::todo());
    assert_eq!(
        status_from_json("\"in_progress\"").expect("Should deserialize in_progress"),
        TaskStatus::in_progress()
    );
    assert_eq!(status_from_json("\"done\"").expect("Should deserialize done"), TaskStatus::done());
    assert_eq!(
        status_from_json("\"canceled\"").expect("Should deserialize canceled"),
        TaskStatus::canceled()
    );

    let err = status_from_json("\"invalid_status\"").expect_err("Should fail to deserialize invalid status");
    assert!(err.contains("invalid status"));
}

#[test]
fn test_task_frontmatter_deserialization() {
    let yaml_str = r#"
id: issue-123
title: Implement Task Node
status: todo
priority: 1
created_at: "2026-02-21T17:00:00Z"
needs: ["issue-122"]
"#;
    let fm = frontmatter_from_yaml(yaml_str).expect("Valid task frontmatter").frontmatter;
    assert_eq!(fm.id, "issue-123");
    assert_eq!(fm.title, "Implement Task Node");
    assert_eq!(fm.status, TaskStatus::todo());
    assert_eq!(fm.priority, Some(Priority::try_from(1).expect("Priority 1 is valid")));
    assert_eq!(fm.needs, vec!["issue-122"]);
    assert!(fm.tags.is_empty(), "Tags should default to empty vec if omitted");
}

#[test]
fn test_task_frontmatter_rejects_out_of_range_priority() {
    let yaml_str = r#"
id: issue-123
title: Implement Task Node
status: todo
priority: 100
created_at: "2026-02-21T17:00:00Z"
"#;

    let err = frontmatter_from_yaml(yaml_str).expect_err("Should reject out-of-range priority");
    assert!(err.contains("priority"), "Expected priority validation error, got: {err}");
}

#[test]
fn test_priority_json_serializes_as_integer() {
    let priority = Priority::try_from(5).expect("Priority 5 is valid");
    let mut wrapper = serde_json::Map::new();
    wrapper.insert("priority".to_string(), serde_json::Value::from(u32::from(priority)));
    let json = serde_json::Value::Object(wrapper);
    assert_eq!(json["priority"].as_u64(), Some(5));
}
