use pebble::config::{default_archive_threshold_days, find_project_root, is_blank, validate_tasks_dir, Config};
use pebble::help_schema::{help_json_output_schema, help_option_name};
use pebble::task_files::frame_task_file;

/// Reads a configuration file the way the command-line tool does: blank text
/// selects the defaults; the keys are read from the TOML table, and the
/// tasks directory is validated by the library.
fn parse_config(text: &str) -> Result<Config, String> {
    let config = if is_blank(text) {
        Config::default()
    } else {
        let table: toml::Table = toml::from_str(text).map_err(|e| e.to_string())?;
        let defaults = Config::default();
        let get = |key: &str, default: String| {
            table.get(key).and_then(|v| v.as_str()).map(|s| s.to_string()).unwrap_or(default)
        };
        Config {
            issue_prefix: get("issue-prefix", defaults.issue_prefix.clone()),
            tasks_dir: get("tasks-dir", defaults.tasks_dir.clone()),
            archive_threshold_days: table
                .get("archive-threshold-days")
                .and_then(|v| v.as_integer())
                .unwrap_or(default_archive_threshold_days()),
        }
    };
    validate_tasks_dir(&config.tasks_dir)?;
    Ok(config)
}

#[test]
fn test_parse_default_config() {
    let toml = "";
    let config = parse_config(toml).expect("Valid config");
    assert_eq!(config.issue_prefix, "issue");
    assert_eq!(config.tasks_dir, "docs/pebble/");
}

#[test]
fn test_parse_custom_config() {
    let toml = r#"
        issue-prefix = "TKT"
        tasks-dir = "my-tasks/"
        "#;
    let config = parse_config(toml).expect("Valid config");
    assert_eq!(config.issue_prefix, "TKT");
    assert_eq!(config.tasks_dir, "my-tasks/");
}

#[test]
fn test_parse_config_rejects_absolute_tasks_dir() {
    let toml = r#"
        tasks-dir = "/absolute/path/to/tasks"
        "#;
    let err = parse_config(toml).expect_err("Should reject absolute tasks path");
    assert!(err.contains("must be a relative path"), "Error was: {}", err);
}

#[test]
fn test_parse_config_rejects_parent_dir_components() {
    let cases = [r#"tasks-dir = "../parent/dir""#, r#"tasks-dir = "nested/../parent""#];
    for toml in cases {
        let err = parse_config(toml).expect_err("Should reject parent directory components");
        assert!(
            err.contains("must not contain parent directory components"),
            "Failed to reject invalid config: {}. Error was: {}",
            toml,
            err
        );
    }
}

#[test]
fn tasks_dir_validation_accepts_relative_paths() {
    assert!(validate_tasks_dir("docs/tasks").is_ok());
    assert!(validate_tasks_dir("a/..b/c..").is_ok());
    assert!(validate_tasks_dir("/absolute/path").is_err());
    assert!(validate_tasks_dir("docs/../tasks").is_err());
    assert!(validate_tasks_dir("..").is_err());
}

#[test]
fn test_find_project_root() {
    // A project at /tmp/root with a `.pebble` marker, searched from a nested directory.
    let from_nested: Vec<String> = vec![
        "/tmp/root/some/deep/path".into(),
        "/tmp/root/some/deep".into(),
        "/tmp/root/some".into(),
        "/tmp/root".into(),
        "/tmp".into(),
        "/".into(),
    ];
    let found = find_project_root(&from_nested, &vec![false, false, false, true, false, false]).expect("Should find root");
    assert_eq!(found, "/tmp/root");

    // Searched from the root itself.
    let from_root: Vec<String> = vec!["/tmp/root".into(), "/tmp".into(), "/".into()];
    let found2 = find_project_root(&from_root, &vec![true, false, false]).expect("Should find root");
    assert_eq!(found2, "/tmp/root");

    // No marker anywhere.
    let empty: Vec<String> = vec!["/tmp/empty".into(), "/tmp".into(), "/".into()];
    assert_eq!(find_project_root(&empty, &vec![false, false, false]), None);
}

#[test]
fn project_root_is_the_nearest_marked_ancestor() {
    let ancestors: Vec<String> = vec!["/r/some/deep".into(), "/r/some".into(), "/r".into(), "/".into()];
    assert_eq!(find_project_root(&ancestors, &vec![false, false, true, true]), Some("/r".to_string()));
    assert_eq!(find_project_root(&ancestors, &vec![true, false, true, false]), Some("/r/some/deep".to_string()));
    assert_eq!(find_project_root(&ancestors, &vec![false; 4]), None);
}

#[test]
fn test_all_commands_have_help_json_output_schema() {
    for name in ["list", "next", "search", "add", "update", "archive", "check", "show", "init", "help-json"] {
        assert!(help_json_output_schema(name, None).is_some(), "no schema for {name}");
    }
    assert!(help_json_output_schema("config", Some("get")).is_some());
}

#[test]
fn help_json_output_schema_has_none_for_unknown_commands() {
    assert!(help_json_output_schema("unknown-command", None).is_none());
    assert!(help_json_output_schema("config", Some("set")).is_none());
    let v: serde_json::Value = serde_json::from_str(&help_json_output_schema("check", None).unwrap()).unwrap();
    assert_eq!(v["errors"][0]["line"], "number|null");
}

#[test]
fn help_option_names_prefer_long_then_short() {
    assert_eq!(help_option_name(Some("json"), Some('j'), "json"), "--json");
    assert_eq!(help_option_name(None, Some('C'), "directory"), "-C");
    assert_eq!(help_option_name(None, None, "title"), "title");
}

#[test]
fn test_task_node_disk_content_uses_yaml_frontmatter() {
    let mut map = serde_json::Map::new();
    map.insert("id".into(), "issue-123".into());
    map.insert("title".into(), "YAML writer".into());
    map.insert("status".into(), "todo".into());
    map.insert("created_at".into(), "2026-03-01T00:00:00+00:00".into());
    let yaml = serde_saphyr::to_string(&serde_json::Value::Object(map)).expect("yaml renders");
    let content = frame_task_file(&yaml, "Body\n");
    assert!(content.starts_with("---\n"), "frontmatter should start with YAML delimiter");
    assert!(content.contains("\n---\n"), "frontmatter should include YAML closing delimiter");
    assert!(content.contains("\nid:"), "frontmatter should use YAML key syntax");
    assert!(!content.contains("+++"), "frontmatter should not use TOML delimiters");
    assert!(content.ends_with("\n---\nBody"));
}
