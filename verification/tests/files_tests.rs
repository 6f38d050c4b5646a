use pebble::adding::{draw_task_id, new_task, task_file_name, unique_filename_error};
use pebble::archive::{archive_candidates, archive_due, archive_file_name};
use pebble::graph::TaskGraph;
use pebble::init::{init_config_text, init_settings, path_to_lossy_json_string};
use pebble::inputs::RunAddInput;
use pebble::models::{Priority, TaskFrontmatter, TaskNode, TaskStatus, Timestamp};
use pebble::parser::{build_task_node, split_frontmatter, RawFrontmatter};
use pebble::task_files::{frame_task_file, is_task_candidate};
use pebble::update::{apply_update_mutations, UpdateMutations};

fn parse_rfc3339(text: &str) -> Result<pebble::models::Timestamp, String> {
    let t = chrono::DateTime::parse_from_rfc3339(text).map_err(|e| e.to_string())?;
    Ok(pebble::models::Timestamp { secs: t.timestamp(), nanos: t.timestamp_subsec_nanos() })
}


fn at(text: &str) -> Timestamp {
    parse_rfc3339(text).expect("valid instant")
}

fn node(id: &str, path: &str) -> TaskNode {
    TaskNode {
        path: path.to_string(),
        body: String::new(),
        frontmatter: TaskFrontmatter {
            id: id.to_string(),
            title: id.to_string(),
            status: TaskStatus::todo(),
            priority: None,
            created_at: None,
            modified_at: None,
            resolved_at: None,
            needs: vec![],
            tags: vec![],
            extra: vec![],
        },
    }
}

#[test]
fn path_to_json_string_lossy_preserves_utf8() {
    let path = "docs/pebble";
    assert_eq!(path_to_lossy_json_string(path.as_bytes()), "docs/pebble");
}

#[test]
fn path_to_json_string_lossy_replaces_invalid_utf8() {
    let path = vec![b'd', b'i', b'r', b'-', 0xFF];
    assert_eq!(path_to_lossy_json_string(&path), "dir-\u{FFFD}");
}

#[test]
fn init_writes_prefix_and_tasks_dir() {
    assert_eq!(init_config_text("TKT", "my-tasks/"), "issue-prefix = \"TKT\"\ntasks-dir = \"my-tasks/\"\n");
    let (p, d) = init_settings(None, None).unwrap();
    assert_eq!(p, "issue");
    assert_eq!(d, "docs/pebble/");
    let (p, d) = init_settings(Some("PROJ".into()), Some("tasks".into())).unwrap();
    assert_eq!((p.as_str(), d.as_str()), ("PROJ", "tasks"));
    let e = init_settings(None, Some("/abs".into())).unwrap_err();
    assert!(e.0.contains("must be a relative path"));
    let e = init_settings(None, Some("a/../b".into())).unwrap_err();
    assert!(e.0.contains("must not contain parent directory components"));
}

#[test]
fn frame_strips_markers_and_trims_body() {
    let text = frame_task_file("---\nid: a\ntitle: T\n...\n", "\n\n  Body line  \n\n");
    assert_eq!(text, "---\nid: a\ntitle: T\n---\nBody line");
    let empty = frame_task_file("id: a", "   \n");
    assert_eq!(empty, "---\nid: a\n---\n");
}

#[test]
fn written_task_file_reads_back() {
    let text = frame_task_file("id: a\ntitle: T\n", "Some body\n\nmore");
    let (yaml, body) = split_frontmatter(&text).expect("a written file splits");
    assert_eq!(yaml, "id: a\ntitle: T");
    assert_eq!(body, "Some body\n\nmore");
}

#[test]
fn task_candidates_are_yaml_files_other_than_agents() {
    assert!(is_task_candidate("a.md", "---\nid: a\n---\n"));
    assert!(!is_task_candidate("AGENTS.md", "---\nid: a\n---\n"));
    assert!(!is_task_candidate("b.md", "+++\nid = \"b\"\n+++\n"));
    assert!(!is_task_candidate("c.md", "--"));
}

#[test]
fn archive_requires_closed_and_old_enough() {
    let now = at("2026-03-31T00:00:00Z");
    let mut done = node("A", "a.md");
    done.frontmatter.status = TaskStatus::done();
    done.frontmatter.resolved_at = Some(at("2026-03-01T00:00:00Z"));
    assert!(archive_due(&done, now, 30));
    assert!(!archive_due(&done, now, 31));
    let mut recent = done.clone();
    recent.frontmatter.resolved_at = Some(at("2026-03-01T00:00:01Z"));
    assert!(!archive_due(&recent, now, 30));
    let mut unresolved = done.clone();
    unresolved.frontmatter.resolved_at = None;
    assert!(!archive_due(&unresolved, now, 0));
    let mut open = done.clone();
    open.frontmatter.status = TaskStatus::todo();
    assert!(!archive_due(&open, now, 0));
    let graph = TaskGraph::new(vec![open, done, recent]);
    assert_eq!(archive_candidates(&graph, now, 30), vec![1]);
}

#[test]
fn archive_names_append_a_counter() {
    assert_eq!(archive_file_name("my-task", "md", 2), "my-task-2.md");
    assert_eq!(archive_file_name("notes", "", 3), "notes-3");
}

#[test]
fn test_add_slug_filename() {
    assert_eq!(task_file_name("my-task", 1).unwrap(), "my-task.md");
    assert_eq!(task_file_name("my-task", 2).unwrap(), "my-task-2.md");
    assert_eq!(task_file_name("my-task", 3).unwrap(), "my-task-3.md");
    assert_eq!(task_file_name("my-task", 999).unwrap(), "my-task-999.md");
    assert!(task_file_name("my-task", 1000).is_none());
    assert!(task_file_name("my-task", 0).is_none());
    assert_eq!(
        unique_filename_error("My Task"),
        "Failed to find a unique filename for task after 1000 attempts: My Task"
    );
}

#[test]
fn new_tasks_get_prefixed_ids_and_defaults() {
    let id = draw_task_id("TEST", 0);
    assert!(id.starts_with("TEST-"));
    assert_eq!(id.len(), "TEST-".len() + 8);
    assert!(id["TEST-".len()..].chars().all(|c| c.is_ascii_digit() || c.is_ascii_lowercase()));
    let now = at("2026-02-01T10:00:00Z");
    let input = RunAddInput {
        title: "My First Task".into(),
        status: None,
        priority: Priority::new(5),
        body: Some("Body text".into()),
        needs: vec![],
        tags: vec!["urgent".into()],
        blocks: vec!["X".into()],
    };
    let (task, blocks) = new_task(input, id.clone(), "docs/pebble/my-first-task.md".into(), now);
    assert_eq!(task.frontmatter.id, id);
    assert_eq!(task.frontmatter.status, TaskStatus::todo());
    assert_eq!(task.frontmatter.created_at, Some(now));
    assert_eq!(task.frontmatter.resolved_at, None);
    assert_eq!(task.frontmatter.tags, vec!["urgent".to_string()]);
    assert_eq!(task.body, "Body text");
    assert_eq!(blocks, vec!["X".to_string()]);
    let closed = RunAddInput {
        title: "Done already".into(),
        status: Some(TaskStatus::done()),
        priority: None,
        body: None,
        needs: vec![],
        tags: vec![],
        blocks: vec![],
    };
    let (task, _) = new_task(closed, "TEST-x".into(), "p.md".into(), now);
    assert_eq!(task.frontmatter.resolved_at, Some(now));
    assert_eq!(task.body, "");
}

#[test]
fn loading_leaves_out_repeated_ids() {
    let parsed = vec![node("B", "1.md"), node("A", "2.md"), node("B", "3.md"), node("C", "4.md"), node("A", "5.md")];
    let graph = TaskGraph::from_parsed(parsed);
    let ids: Vec<&str> = graph.nodes.iter().map(|n| n.frontmatter.id.as_str()).collect();
    assert_eq!(ids, vec!["C"]);
    assert_eq!(graph.duplicate_ids, vec!["A".to_string(), "B".to_string()]);
    assert!(graph.is_duplicate_id("A"));
    assert!(!graph.contains_key("A"));
}

/// The text of a task's file, as the command-line tool writes it: the
/// frontmatter serialized as YAML, framed with the body by the library.
fn file_text(node: &TaskNode) -> String {
    let time = |t: Option<Timestamp>| {
        t.map(|t| chrono::DateTime::from_timestamp(t.secs, t.nanos).expect("representable").to_rfc3339())
    };
    let mut map = serde_json::Map::new();
    let fm = &node.frontmatter;
    map.insert("id".into(), fm.id.clone().into());
    map.insert("title".into(), fm.title.clone().into());
    map.insert("status".into(), fm.status.as_str().into());
    if let Some(p) = fm.priority {
        map.insert("priority".into(), p.get().into());
    }
    for (key, value) in [("created_at", fm.created_at), ("modified_at", fm.modified_at), ("resolved_at", fm.resolved_at)] {
        if let Some(t) = time(value) {
            map.insert(key.into(), t.into());
        }
    }
    map.insert("needs".into(), fm.needs.clone().into());
    map.insert("tags".into(), fm.tags.clone().into());
    let yaml = serde_saphyr::to_string(&serde_json::Value::Object(map)).expect("yaml renders");
    frame_task_file(&yaml, &node.body)
}

#[test]
fn test_init_and_add() {
    let (prefix, tasks_dir) = init_settings(Some("TEST".to_string()), Some("docs/pebble".to_string()))
        .expect("settings should be accepted");
    assert_eq!(prefix, "TEST");
    assert_eq!(tasks_dir, "docs/pebble");

    let id = draw_task_id(&prefix, 0);
    let input = RunAddInput {
        title: "My First Task".to_string(),
        status: None,
        priority: Some(Priority::try_from(5).unwrap()),
        body: Some("Body text".to_string()),
        needs: vec![],
        tags: vec!["urgent".to_string()],
        blocks: vec![],
    };
    let path = "docs/pebble/my-first-task.md";
    let (added, _) = new_task(input, id.clone(), path.to_string(), at("2026-02-01T10:00:00Z"));

    // Written to its file and loaded back.
    let text = file_text(&added);
    let graph = load_from_files(&[(path, text.as_str())]);
    assert_eq!(graph.nodes.len(), 1);
    let node = &graph.nodes[0];
    assert!(node.frontmatter.id.starts_with("TEST-"));
    assert_eq!(node.frontmatter.title, "My First Task");
    assert_eq!(node.frontmatter.status, TaskStatus::todo());
    assert_eq!(node.frontmatter.priority, Some(Priority::try_from(5).unwrap()));
    assert_eq!(node.frontmatter.tags, vec!["urgent".to_string()]);
    assert_eq!(node.body, "Body text");

    let mut node = node.clone();
    apply_update_mutations(
        &mut node,
        UpdateMutations {
            title: Some("Updated Title".to_string()),
            status: Some(TaskStatus::in_progress()),
            priority: None,
            clear_priority: true,
            body: None,
            append_body: Some("Appended body".to_string()),
            add_tags: vec!["new_tag".to_string()],
            remove_tags: vec!["urgent".to_string()],
            add_needs: vec![],
            remove_needs: vec![],
        },
    );

    // Written again and loaded back.
    let text2 = file_text(&node);
    let graph2 = load_from_files(&[(path, text2.as_str())]);
    let updated_node = graph2.get(&id).unwrap();
    assert_eq!(updated_node.frontmatter.title, "Updated Title");
    assert_eq!(updated_node.frontmatter.status, TaskStatus::in_progress());
    assert_eq!(updated_node.frontmatter.priority, None);
    assert_eq!(updated_node.frontmatter.tags, vec!["new_tag".to_string()]);
    assert_eq!(updated_node.body, "Body text\n\nAppended body");
}

#[test]
fn test_run_add_collision_logic() {
    // File names tried in turn while earlier ones are taken.
    let mut taken: Vec<String> = Vec::new();
    for _ in 0..3 {
        let mut attempt = 1;
        let name = loop {
            let candidate = task_file_name("my-task", attempt).expect("a name within the attempt limit");
            if !taken.contains(&candidate) {
                break candidate;
            }
            attempt += 1;
        };
        taken.push(name);
    }
    assert_eq!(taken[0], "my-task.md");
    assert_eq!(taken[1], "my-task-2.md");
    assert_eq!(taken[2], "my-task-3.md");
}

/// Loads tasks from (file name, content) pairs the way the command-line tool
/// loads a directory: candidates are chosen and split by the library, their
/// YAML read into a generic value, and the graph built by the library.
fn load_from_files(files: &[(&str, &str)]) -> TaskGraph {
    let mut parsed = Vec::new();
    for (name, content) in files {
        if !is_task_candidate(name, content) {
            continue;
        }
        let Ok((yaml, body)) = split_frontmatter(content) else { continue };
        let Ok(value) = serde_saphyr::from_str::<serde_json::Value>(&yaml) else { continue };
        let text = |key: &str| value.get(key).and_then(|v| v.as_str()).map(|s| s.to_string());
        let list = |key: &str| -> Vec<String> {
            value
                .get(key)
                .and_then(|v| v.as_array())
                .map(|a| a.iter().filter_map(|x| x.as_str().map(|s| s.to_string())).collect())
                .unwrap_or_default()
        };
        let Ok(status) = TaskStatus::parse(&text("status").unwrap_or_default()) else { continue };
        let priority = match value.get("priority").and_then(|v| v.as_u64()) {
            None => None,
            Some(n) => match u32::try_from(n).ok().and_then(Priority::new) {
                Some(p) => Some(p),
                None => continue,
            },
        };
        let raw = RawFrontmatter {
            id: text("id").unwrap_or_default(),
            title: text("title").unwrap_or_default(),
            status,
            priority,
            created_at: text("created_at"),
            modified_at: text("modified_at"),
            resolved_at: text("resolved_at"),
            needs: list("needs"),
            tags: list("tags"),
            extra: vec![],
        };
        if let Ok(node) = build_task_node(name.to_string(), raw, body) {
            parsed.push(node);
        }
    }
    TaskGraph::from_parsed(parsed)
}

#[test]
fn test_load_from_dir_prefers_yaml_frontmatter_and_ignores_non_yaml() {
    let yaml_task = r#"---
id: YAML-1
title: YAML task
status: todo
created_at: "2026-02-21T17:00:00Z"
---
Body
"#;
    let legacy_toml_task = r#"+++
id = "TOML-1"
title = "Legacy TOML task"
status = "todo"
created_at = 2026-02-21T17:00:00Z
+++
Body
"#;
    let graph = load_from_files(&[
        ("yaml.md", yaml_task),
        ("legacy.md", legacy_toml_task),
        ("notes.md", "# Plain markdown\n"),
    ]);

    assert!(graph.contains_key("YAML-1"), "valid YAML frontmatter should be loaded");
    assert!(!graph.contains_key("TOML-1"), "legacy TOML frontmatter should be treated as missing YAML frontmatter");
    assert_eq!(graph.nodes.len(), 1, "non-YAML files should be skipped as missing metadata");
}
