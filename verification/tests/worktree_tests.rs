use pebble::worktree::{join_path, WorktreeManager};
use std::path::PathBuf;

#[test]
fn test_worktree_path_generation() {
    let repo_root = PathBuf::from("/tmp/repo");
    let manager = WorktreeManager::new("/tmp/repo".to_string(), "my-sync-branch".to_string());
    let expected = repo_root.join(".git/beads-worktrees/my-sync-branch");
    assert_eq!(PathBuf::from(manager.get_worktree_path()), expected);
}

#[test]
fn join_path_follows_pathbuf_push() {
    assert_eq!(join_path("/tmp/repo", "a"), "/tmp/repo/a");
    assert_eq!(join_path("/tmp/repo/", "a"), "/tmp/repo/a");
    assert_eq!(join_path("", "a"), "a");
    assert_eq!(join_path("/tmp/repo", "/abs"), "/abs");
    for (base, rest) in [("docs", "pebble/"), ("/x/y", "z"), ("a/", "b/c")] {
        assert_eq!(
            PathBuf::from(join_path(base, rest)),
            PathBuf::from(base).join(rest)
        );
    }
}

use pebble::worktree::{ActionOutcome, WorktreeAction, WorktreeFailure, WorktreeGoal};

fn git_of(a: &WorktreeAction) -> (Vec<String>, String, bool) {
    match a {
        WorktreeAction::Git { args, dir, capture } => (args.clone(), dir.clone(), *capture),
        _ => panic!("expected a git action"),
    }
}

#[test]
fn ensure_returns_existing_worktree_at_once() {
    let manager = WorktreeManager::new("/r".to_string(), "sync".to_string());
    let mut task = manager.begin(WorktreeGoal::Ensure);
    match task.step(ActionOutcome::Succeeded) {
        WorktreeAction::CheckExists(p) => assert_eq!(p, "/r/.git/beads-worktrees/sync"),
        _ => panic!("first the worktree is looked for"),
    }
    match task.step(ActionOutcome::Exists(true)) {
        WorktreeAction::Finish(Ok(p)) => assert_eq!(p, "/r/.git/beads-worktrees/sync"),
        _ => panic!("an existing worktree is returned"),
    }
}

#[test]
fn ensure_creates_orphan_branch_when_none_exists() {
    let manager = WorktreeManager::new("/r".to_string(), "sync".to_string());
    let mut task = manager.begin(WorktreeGoal::Ensure);
    task.step(ActionOutcome::Succeeded);
    match task.step(ActionOutcome::Exists(false)) {
        WorktreeAction::CreateDir(d) => assert_eq!(d, "/r/.git/beads-worktrees"),
        _ => panic!("the parent directory is created"),
    }
    let (args, dir, _) = git_of(&task.step(ActionOutcome::Succeeded));
    assert_eq!(args, vec!["rev-parse", "--verify", "sync"]);
    assert_eq!(dir, "/r");
    let (args, _, _) = git_of(&task.step(ActionOutcome::Failed("no branch".into())));
    assert_eq!(args, vec!["fetch", "origin"]);
    let (args, _, _) = git_of(&task.step(ActionOutcome::Failed("offline".into())));
    assert_eq!(args, vec!["rev-parse", "--verify", "origin/sync"]);
    let (args, dir, capture) = git_of(&task.step(ActionOutcome::Failed("no remote branch".into())));
    assert_eq!(args, vec!["worktree", "add", "--detach", "--no-checkout", "/r/.git/beads-worktrees/sync"]);
    assert_eq!(dir, "/r");
    assert!(capture);
    let (args, dir, _) = git_of(&task.step(ActionOutcome::Succeeded));
    assert_eq!(args, vec!["checkout", "--orphan", "sync"]);
    assert_eq!(dir, "/r/.git/beads-worktrees/sync");
    let (args, _, _) = git_of(&task.step(ActionOutcome::Succeeded));
    assert_eq!(args, vec!["rm", "-rf", "."]);
    match task.step(ActionOutcome::Failed("nothing to remove".into())) {
        WorktreeAction::Finish(Ok(p)) => assert_eq!(p, "/r/.git/beads-worktrees/sync"),
        _ => panic!("a failed clean-up is ignored"),
    }
}

#[test]
fn sync_fetches_merges_and_pushes_in_the_worktree() {
    let manager = WorktreeManager::new("/r".to_string(), "sync".to_string());
    let mut task = manager.begin(WorktreeGoal::Sync);
    task.step(ActionOutcome::Succeeded);
    let (args, dir, _) = git_of(&task.step(ActionOutcome::Exists(true)));
    assert_eq!(args, vec!["fetch", "origin", "sync"]);
    assert_eq!(dir, "/r/.git/beads-worktrees/sync");
    let (args, _, _) = git_of(&task.step(ActionOutcome::Succeeded));
    assert_eq!(args, vec!["merge", "--ff-only", "origin/sync"]);
    match task.step(ActionOutcome::Failed("diverged".into())) {
        WorktreeAction::Finish(Err((f, _))) => assert_eq!(f, WorktreeFailure::Merge),
        _ => panic!("a failed merge ends the sync"),
    }
}

#[test]
fn jsonl_path_creates_its_directory_when_missing() {
    let manager = WorktreeManager::new("/r".to_string(), "sync".to_string());
    let mut task = manager.begin(WorktreeGoal::JsonlPath);
    task.step(ActionOutcome::Succeeded);
    match task.step(ActionOutcome::Exists(true)) {
        WorktreeAction::CheckExists(d) => assert_eq!(d, "/r/.git/beads-worktrees/sync/.beads"),
        _ => panic!("the issue directory is looked for"),
    }
    match task.step(ActionOutcome::Exists(false)) {
        WorktreeAction::CreateDir(d) => assert_eq!(d, "/r/.git/beads-worktrees/sync/.beads"),
        _ => panic!("a missing issue directory is created"),
    }
    match task.step(ActionOutcome::Succeeded) {
        WorktreeAction::Finish(Ok(p)) => assert_eq!(p, "/r/.git/beads-worktrees/sync/.beads/issues.jsonl"),
        _ => panic!("the issue file's path is given"),
    }
}

#[test]
fn test_get_absolute_jsonl_path() {
    // The worktree and its issue directory are already there.
    let repo_root = PathBuf::from("/tmp/repo");
    let manager = WorktreeManager::new("/tmp/repo".to_string(), "my-sync-branch".to_string());
    let expected = repo_root.join(".git/beads-worktrees/my-sync-branch/.beads/issues.jsonl");
    let mut task = manager.begin(WorktreeGoal::JsonlPath);
    match task.step(ActionOutcome::Succeeded) {
        WorktreeAction::CheckExists(p) => assert_eq!(PathBuf::from(p), repo_root.join(".git/beads-worktrees/my-sync-branch")),
        _ => panic!("the worktree is looked for first"),
    }
    match task.step(ActionOutcome::Exists(true)) {
        WorktreeAction::CheckExists(d) => assert_eq!(PathBuf::from(d), expected.parent().unwrap().to_path_buf()),
        _ => panic!("the issue directory is looked for"),
    }
    let path = match task.step(ActionOutcome::Exists(true)) {
        WorktreeAction::Finish(Ok(p)) => PathBuf::from(p),
        _ => panic!("Failed to get jsonl path"),
    };
    assert_eq!(path, expected);
}
