use pebble::inputs::AddOptions;
use pebble::issue_update::{apply_updates_at, update_labels, validate_close_reason, UpdateFields};
use pebble::store::{needs_newline_before_append, new_issue, Issue, JsonlStore};

fn issue(updated_at: &str) -> Issue {
    Issue {
        id: "PROJECT-123".to_string(),
        title: "Implement documentation".to_string(),
        description: Some("Add doc comments to public API".to_string()),
        status: "open".to_string(),
        priority: 1,
        issue_type: "task".to_string(),
        owner: Some("alice@example.com".to_string()),
        created_at: "2023-10-27T10:00:00Z".to_string(),
        created_by: Some("Alice".to_string()),
        updated_at: updated_at.to_string(),
        ..Default::default()
    }
}

#[test]
fn merge_takes_newer_versions_only() {
    let mut a = issue("2023-10-27T10:00:00Z");
    let mut newer = issue("2023-10-28T10:00:00Z");
    newer.title = "Newer".into();
    newer.id = "OTHER".into();
    a.merge(newer);
    assert_eq!(a.title, "Newer");
    assert_eq!(a.id, "PROJECT-123");
    let mut older = issue("2023-10-01T10:00:00Z");
    older.title = "Older".into();
    a.merge(older);
    assert_eq!(a.title, "Newer");
    let again = issue("2023-10-28T10:00:00Z");
    let before = a.title.clone();
    a.merge(again);
    assert_eq!(a.title, before);
}

#[test]
fn labels_union_sorted_then_removed() {
    let mut i = issue("t");
    i.labels = vec!["b".into(), "a".into()];
    assert!(update_labels(&mut i, vec!["c".into(), "a".into()], vec!["b".into()]));
    assert_eq!(i.labels, vec!["a".to_string(), "c".to_string()]);
    assert!(!update_labels(&mut i, vec![], vec!["zzz".into()]));
}

#[test]
fn closing_needs_a_reason() {
    assert!(validate_close_reason("open", "closed", &None).is_err());
    assert!(validate_close_reason("open", "closed", &Some("done".into())).is_ok());
    assert!(validate_close_reason("open", "open", &Some("why".into())).is_err());
    let mut i = issue("2023-10-27T10:00:00Z");
    let fields = UpdateFields { status: Some("closed".into()), close_reason: Some("fixed".into()), ..Default::default() };
    assert_eq!(apply_updates_at(&mut i, fields, "2024-01-01T00:00:00Z".into()).unwrap(), true);
    assert_eq!(i.status, "closed");
    assert_eq!(i.closed_at.as_deref(), Some("2024-01-01T00:00:00Z"));
    assert_eq!(i.updated_at, "2024-01-01T00:00:00Z");
    let refused = UpdateFields { status: Some("closed".into()), ..Default::default() };
    let mut j = issue("x");
    assert!(apply_updates_at(&mut j, refused, "later".into()).is_err());
    assert_eq!(j.updated_at, "x");
}

#[test]
fn new_issue_defaults_owner_and_times() {
    let options = AddOptions {
        title: "T".into(),
        description: None,
        status: "open".into(),
        priority: 2,
        issue_type: "task".into(),
        owner: None,
        acceptance_criteria: None,
        defer_until: None,
        labels: vec![],
        notes: vec![],
    };
    let i = new_issue(options, "p-1".into(), "now".into(), "Ann".into(), "ann@x".into());
    assert_eq!(i.owner.as_deref(), Some("ann@x"));
    assert_eq!(i.created_by.as_deref(), Some("Ann"));
    assert_eq!((i.created_at.as_str(), i.updated_at.as_str()), ("now", "now"));
    assert!(i.closed_at.is_none());
}

#[test]
fn appends_start_on_a_fresh_line() {
    assert!(!needs_newline_before_append(None));
    assert!(!needs_newline_before_append(Some(b'\n')));
    assert!(needs_newline_before_append(Some(b'}')));
    assert_eq!(JsonlStore::new("a/issues.jsonl").path(), "a/issues.jsonl");
}

use pebble::inputs::IssueFilters;
use pebble::issue_query::{filter_issues, search_issues};
use pebble::store::issue_write_order;

fn no_filters() -> IssueFilters {
    IssueFilters { status: None, owner: None, priority: None, issue_type: None }
}

#[test]
fn issue_filters_must_all_match() {
    let mut a = issue("t");
    a.id = "b".into();
    let mut b = issue("t");
    b.id = "a".into();
    b.status = "closed".into();
    b.owner = None;
    let issues = vec![a, b];
    assert_eq!(filter_issues(&issues, &no_filters()), vec![0, 1]);
    let mut f = no_filters();
    f.status = Some("closed".into());
    assert_eq!(filter_issues(&issues, &f), vec![1]);
    let mut f = no_filters();
    f.owner = Some("alice@example.com".into());
    assert_eq!(filter_issues(&issues, &f), vec![0]);
    let mut f = no_filters();
    f.priority = Some(2);
    assert!(filter_issues(&issues, &f).is_empty());
    assert_eq!(issue_write_order(&issues), vec![1, 0]);
}

#[test]
fn issue_search_ignores_case_in_title_and_description() {
    let mut a = issue("t");
    a.title = "Database TIMEOUT".into();
    let mut b = issue("t");
    b.title = "Other".into();
    b.description = Some("mentions a timeout".into());
    let mut c = issue("t");
    c.title = "Nothing".into();
    c.description = None;
    let issues = vec![a, b, c];
    assert_eq!(search_issues(&issues, "timeout", &no_filters()), vec![0, 1]);
    let mut f = no_filters();
    f.issue_type = Some("bug".into());
    assert!(search_issues(&issues, "timeout", &f).is_empty());
}
