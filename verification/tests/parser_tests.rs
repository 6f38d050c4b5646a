use pebble::models::{TaskNode, TaskStatus};
use pebble::parser::{build_task_node, parse_optional_datetime, split_frontmatter, RawFrontmatter};

/// Reads a task file the way the command-line tool does: the frontmatter
/// block is split off by the library, its YAML read into a generic value, and
/// the task built by the library from the fields read.
fn parse_task_file(path: &str, content: &str) -> Result<TaskNode, String> {
    let (yaml, body) = split_frontmatter(content)?;
    let value: serde_json::Value =
        serde_saphyr::from_str(&yaml).map_err(|e| format!("Failed to parse YAML frontmatter: {}", e))?;
    let text = |key: &str| value.get(key).and_then(|v| v.as_str()).map(|s| s.to_string());
    let status_text = text("status").ok_or_else(|| "Failed to parse YAML frontmatter: missing status".to_string())?;
    let status = TaskStatus::parse(&status_text).map_err(|e| format!("Failed to parse YAML frontmatter: {}", e))?;
    let raw = RawFrontmatter {
        id: text("id").unwrap_or_default(),
        title: text("title").unwrap_or_default(),
        status,
        priority: None,
        created_at: text("created_at"),
        modified_at: text("modified_at"),
        resolved_at: text("resolved_at"),
        needs: vec![],
        tags: vec![],
        extra: vec![],
    };
    build_task_node(path.to_string(), raw, body)
}

#[test]
fn test_parse_valid_yaml_task() {
    let content = r#"---
id: issue-1
title: Test
status: todo
created_at: "2026-02-21T17:00:00Z"
---

# Body
This is the body.
"#;
    let node = parse_task_file("issue-1.md", content).expect("Should parse valid task file");
    assert_eq!(node.frontmatter.id, "issue-1");
    assert_eq!(node.frontmatter.title, "Test");
    assert_eq!(node.frontmatter.status, TaskStatus::todo());
    assert_eq!(node.body, "\n# Body\nThis is the body.\n");
}

#[test]
fn test_parse_missing_frontmatter() {
    let content = "# Just a markdown file";
    let err = parse_task_file("file.md", content).expect_err("Should fail when frontmatter is missing");
    assert!(err.contains("must start with '---'"));
}

#[test]
fn test_parse_unclosed_yaml_frontmatter() {
    let content = r#"---
id: issue-1
title: Test
status: todo
created_at: "2026-02-21T17:00:00Z"
"#;
    let err = parse_task_file("file.md", content).expect_err("Should fail when frontmatter is unclosed");
    assert!(err.contains("Missing closing '---'"));
}

#[test]
fn test_parse_invalid_yaml_frontmatter() {
    let content = r#"---
id: issue-1
title: Test
status: invalid_status
created_at: "2026-02-21T17:00:00Z"
---"#;
    let err = parse_task_file("file.md", content).expect_err("Should fail when frontmatter is invalid YAML");
    assert!(err.contains("Failed to parse YAML frontmatter"));
}

#[test]
fn test_parse_legacy_toml_frontmatter_treated_as_missing_yaml() {
    let content = r#"+++
id = "issue-1"
title = "Test"
status = "todo"
created_at = 2026-02-21T17:00:00Z
+++"#;
    let err = parse_task_file("file.md", content)
        .expect_err("Legacy TOML frontmatter should be treated as missing YAML frontmatter");
    assert!(err.contains("must start with '---'"));
}

#[test]
fn test_parse_yaml_delimiters_with_trailing_spaces() {
    let content = "---   \n\
id: issue-1\n\
title: Test\n\
status: todo\n\
created_at: \"2026-02-21T17:00:00Z\"\n\
---   \n\
\n\
# Body\n\
This is the body.\n";
    let node = parse_task_file("issue-1.md", content)
        .expect("Should parse valid YAML with trailing spaces on both delimiters");
    assert_eq!(node.frontmatter.id, "issue-1");
    assert_eq!(node.body, "\n# Body\nThis is the body.\n");
}

#[test]
fn split_joins_frontmatter_lines_and_keeps_body_text() {
    let (yaml, body) = split_frontmatter("---\r\na: 1\r\nb: 2\r\n---\r\nrest\n").unwrap();
    assert_eq!(yaml, "a: 1\nb: 2");
    assert_eq!(body, "rest\n");
    let (yaml, body) = split_frontmatter("---\n---").unwrap();
    assert_eq!(yaml, "");
    assert_eq!(body, "");
}

#[test]
fn bad_instants_name_the_field() {
    let err = parse_optional_datetime(&Some("yesterday".into()), "created_at").unwrap_err();
    assert!(err.starts_with("Invalid 'created_at' datetime 'yesterday': "));
    assert_eq!(parse_optional_datetime(&None, "created_at").unwrap(), None);
    let t = parse_optional_datetime(&Some("2026-02-21T17:00:00+01:00".into()), "resolved_at").unwrap().unwrap();
    assert_eq!(t.secs, 1771689600);
    assert_eq!(t.nanos, 0);
}
