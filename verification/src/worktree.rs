//! Where the sync worktree of a repository lives.
use crate::text::{chars_of, push_char};
use vstd::prelude::*;
use vstd::string::StringExecFns;

verus! {

/// Joining a path onto a base path the way `PathBuf::push` does on Unix: an
/// absolute `rest` replaces the base; otherwise a `/` separates the two
/// unless the base is empty or already ends with one.
pub open spec fn path_join(base: Seq<char>, rest: Seq<char>) -> Seq<char> {
    if rest.len() > 0 && rest[0] == '/' {
        rest
    } else if base.len() == 0 || base.last() == '/' {
        base + rest
    } else {
        base + seq!['/'] + rest
    }
}

/// Joins `rest` onto `base` (see [`path_join`]).
pub fn join_path(base: &str, rest: &str) -> (r: String)
    ensures
        r@ == path_join(base@, rest@),
{
    let b = chars_of(base);
    let t = chars_of(rest);
    if t.len() > 0 && t[0] == '/' {
        return rest.to_string();
    }
    let mut r = base.to_string();
    if b.len() > 0 && b[b.len() - 1] != '/' {
        push_char(&mut r, '/');
    }
    r.append(rest);
    r
}

/// Manages the worktree that holds the sync branch of a repository.
pub struct WorktreeManager {
    repo_root: String,
    sync_branch: String,
}

impl WorktreeManager {
    /// The repository root.
    pub closed spec fn root_spec(&self) -> Seq<char> {
        self.repo_root@
    }

    /// The sync branch.
    pub closed spec fn branch_spec(&self) -> Seq<char> {
        self.sync_branch@
    }

    /// A manager for the given repository root and sync branch.
    pub fn new(repo_root: String, sync_branch: String) -> (m: Self)
        ensures
            m.root_spec() == repo_root@,
            m.branch_spec() == sync_branch@,
    {
        WorktreeManager { repo_root, sync_branch }
    }

    /// The repository root.
    pub fn repo_root(&self) -> (r: &str)
        ensures
            r@ == self.root_spec(),
    {
        self.repo_root.as_str()
    }

    /// The sync branch.
    pub fn sync_branch(&self) -> (r: &str)
        ensures
            r@ == self.branch_spec(),
    {
        self.sync_branch.as_str()
    }

    /// The worktree's path: `<repo_root>/.git/beads-worktrees/<sync_branch>`.
    pub fn get_worktree_path(&self) -> (p: String)
        ensures
            p@ == path_join(path_join(self.root_spec(), ".git/beads-worktrees"@), self.branch_spec()),
    {
        let dir = join_path(self.repo_root.as_str(), ".git/beads-worktrees");
        join_path(dir.as_str(), self.sync_branch.as_str())
    }
}


/// The parent of a path, as `Path::parent` gives it: the path without its
/// last component, or none for a root or an empty path.
pub uninterp spec fn parent_of(path: Seq<char>) -> Option<Seq<char>>;

/// The parent of a path, from `std::path::Path::parent`; the result is the
/// named [`parent_of`] of the path.
#[verifier::external_body]
fn path_parent(path: &str) -> (r: Option<String>)
    ensures
        match r {
            Some(p) => parent_of(path@) == Some(p@),
            None => parent_of(path@) is None,
        },
{
    match std::path::Path::new(path).parent() {
        Some(p) => Some(p.to_string_lossy().into_owned()),
        None => None,
    }
}

/// What the worktree operations are after.
#[derive(PartialEq, Eq, Structural, Clone, Copy, Debug)]
pub enum WorktreeGoal {
    /// Make sure the worktree exists, and give its path.
    Ensure,
    /// Make sure the worktree exists, then fetch, fast-forward and push the
    /// sync branch there.
    Sync,
    /// Make sure the worktree exists and give the path of its issue file,
    /// creating the file's directory when missing.
    JsonlPath,
}

/// Where the worktree operations stand.
#[derive(PartialEq, Eq, Structural, Clone, Copy, Debug)]
pub enum WorktreePhase {
    Start,
    CheckedWorktree,
    MadeParent,
    CheckedLocalBranch,
    Fetched,
    CheckedRemoteBranch,
    AddedWorktree,
    AddedOrphan,
    CheckedOutOrphan,
    Cleared,
    SyncFetched,
    Merged,
    Pushed,
    CheckedJsonlDir,
    MadeJsonlDir,
    Finished,
}

/// Which operation failed.
#[derive(PartialEq, Eq, Structural, Clone, Copy, Debug)]
pub enum WorktreeFailure {
    /// Creating the directory that holds the worktree.
    ParentDir,
    /// `git worktree add` for an existing branch.
    AddWorktree,
    /// `git worktree add` for a new orphan branch.
    AddOrphan,
    /// `git checkout --orphan` in the new worktree.
    OrphanBranch,
    /// `git fetch` of the sync branch.
    Fetch,
    /// `git merge --ff-only` of the fetched branch.
    Merge,
    /// `git push` of the sync branch.
    Push,
    /// Creating the directory of the issue file.
    JsonlDir,
}

/// What the caller is to do next.
pub enum WorktreeAction {
    /// Report whether the path exists.
    CheckExists(String),
    /// Create the directory and its missing parents.
    CreateDir(String),
    /// Run `git` with these arguments in this directory; with `capture`, its
    /// output is captured rather than shown.
    Git { args: Vec<String>, dir: String, capture: bool },
    /// Done: the resulting path (the worktree's, or the issue file's; empty
    /// after a sync), or which operation failed, with the path it concerned
    /// when it was a directory.
    Finish(Result<String, (WorktreeFailure, String)>),
}

/// What came of the last action.
pub enum ActionOutcome {
    /// The path exists, or not.
    Exists(bool),
    /// The action succeeded.
    Succeeded,
    /// The action failed, with this message.
    Failed(String),
}

/// The state of the worktree operations.
pub struct WorktreeTask {
    pub goal: WorktreeGoal,
    pub phase: WorktreePhase,
    /// The repository root.
    pub root: String,
    /// The sync branch.
    pub branch: String,
    /// The worktree's path.
    pub path: String,
}

/// The view of an action: strings by their characters.
pub enum ActionView {
    CheckExists(Seq<char>),
    CreateDir(Seq<char>),
    Git(Seq<Seq<char>>, Seq<char>, bool),
    Finish(Result<Seq<char>, (WorktreeFailure, Seq<char>)>),
}

impl View for WorktreeAction {
    type V = ActionView;

    open spec fn view(&self) -> ActionView {
        match self {
            WorktreeAction::CheckExists(p) => ActionView::CheckExists(p@),
            WorktreeAction::CreateDir(p) => ActionView::CreateDir(p@),
            WorktreeAction::Git { args, dir, capture } => ActionView::Git(args.deep_view(), dir@, *capture),
            WorktreeAction::Finish(r) => ActionView::Finish(
                match r {
                    Ok(p) => Ok(p@),
                    Err((f, p)) => Err((*f, p@)),
                },
            ),
        }
    }
}

/// The order in which the phases are passed: every step moves to a later
/// phase, so the operations end.
pub open spec fn phase_rank(p: WorktreePhase) -> nat {
    match p {
        WorktreePhase::Start => 0,
        WorktreePhase::CheckedWorktree => 1,
        WorktreePhase::MadeParent => 2,
        WorktreePhase::CheckedLocalBranch => 3,
        WorktreePhase::Fetched => 4,
        WorktreePhase::CheckedRemoteBranch => 5,
        WorktreePhase::AddedWorktree => 6,
        WorktreePhase::AddedOrphan => 7,
        WorktreePhase::CheckedOutOrphan => 8,
        WorktreePhase::Cleared => 9,
        WorktreePhase::SyncFetched => 10,
        WorktreePhase::Merged => 11,
        WorktreePhase::Pushed => 12,
        WorktreePhase::CheckedJsonlDir => 13,
        WorktreePhase::MadeJsonlDir => 14,
        WorktreePhase::Finished => 15,
    }
}

/// The phases of a sync come only in a sync, and those of the issue file
/// only when it is the goal.
pub open spec fn phase_fits_goal(g: WorktreeGoal, p: WorktreePhase) -> bool {
    match p {
        WorktreePhase::SyncFetched | WorktreePhase::Merged | WorktreePhase::Pushed => g == WorktreeGoal::Sync,
        WorktreePhase::CheckedJsonlDir | WorktreePhase::MadeJsonlDir => g == WorktreeGoal::JsonlPath,
        _ => true,
    }
}

/// The path of the issue file in a worktree.
pub open spec fn jsonl_path_of(worktree: Seq<char>) -> Seq<char> {
    path_join(worktree, ".beads/issues.jsonl"@)
}

/// The action and phase once the worktree is known to exist: done for
/// `Ensure`; otherwise the first step of the sync or of the issue file.
pub open spec fn after_worktree(t: WorktreeTask) -> (WorktreePhase, ActionView) {
    match t.goal {
        WorktreeGoal::Ensure => (WorktreePhase::Finished, ActionView::Finish(Ok(t.path@))),
        WorktreeGoal::Sync => (
            WorktreePhase::SyncFetched,
            ActionView::Git(seq!["fetch"@, "origin"@, t.branch@], t.path@, false),
        ),
        WorktreeGoal::JsonlPath => match parent_of(jsonl_path_of(t.path@)) {
            Some(d) => (WorktreePhase::CheckedJsonlDir, ActionView::CheckExists(d)),
            None => (WorktreePhase::Finished, ActionView::Finish(Ok(jsonl_path_of(t.path@)))),
        },
    }
}

/// The failure of the step that just ran, or, when it succeeded, the next
/// phase and action.
pub open spec fn on_success(
    o: ActionOutcome,
    next: (WorktreePhase, ActionView),
    fail: WorktreeFailure,
    at: Seq<char>,
) -> (WorktreePhase, ActionView) {
    match o {
        ActionOutcome::Failed(_) => (WorktreePhase::Finished, ActionView::Finish(Err((fail, at)))),
        _ => next,
    }
}

/// One step of the worktree operations: from the phase and the outcome of
/// the last action, the next phase and action.
pub open spec fn worktree_step(t: WorktreeTask, o: ActionOutcome) -> (WorktreePhase, ActionView) {
    let root = t.root@;
    let branch = t.branch@;
    let path = t.path@;
    let remote = "origin/"@ + branch;
    let local_check = ActionView::Git(seq!["rev-parse"@, "--verify"@, branch], root, false);
    match t.phase {
        WorktreePhase::Start => (WorktreePhase::CheckedWorktree, ActionView::CheckExists(path)),
        WorktreePhase::CheckedWorktree => if o matches ActionOutcome::Exists(true) {
            after_worktree(t)
        } else {
            match parent_of(path) {
                Some(d) => (WorktreePhase::MadeParent, ActionView::CreateDir(d)),
                None => (WorktreePhase::CheckedLocalBranch, local_check),
            }
        },
        WorktreePhase::MadeParent => on_success(
            o,
            (WorktreePhase::CheckedLocalBranch, local_check),
            WorktreeFailure::ParentDir,
            parent_of(path).unwrap_or(Seq::empty()),
        ),
        WorktreePhase::CheckedLocalBranch => if o is Failed {
            (WorktreePhase::Fetched, ActionView::Git(seq!["fetch"@, "origin"@], root, false))
        } else {
            (
                WorktreePhase::AddedWorktree,
                ActionView::Git(seq!["worktree"@, "add"@, "--detach"@, path, branch], root, true),
            )
        },
        WorktreePhase::Fetched => (
            WorktreePhase::CheckedRemoteBranch,
            ActionView::Git(seq!["rev-parse"@, "--verify"@, remote], root, false),
        ),
        WorktreePhase::CheckedRemoteBranch => if o is Failed {
            (
                WorktreePhase::AddedOrphan,
                ActionView::Git(seq!["worktree"@, "add"@, "--detach"@, "--no-checkout"@, path], root, true),
            )
        } else {
            (
                WorktreePhase::AddedWorktree,
                ActionView::Git(seq!["worktree"@, "add"@, "--detach"@, path, remote], root, true),
            )
        },
        WorktreePhase::AddedWorktree => on_success(o, after_worktree(t), WorktreeFailure::AddWorktree, Seq::empty()),
        WorktreePhase::AddedOrphan => on_success(
            o,
            (WorktreePhase::CheckedOutOrphan, ActionView::Git(seq!["checkout"@, "--orphan"@, branch], path, false)),
            WorktreeFailure::AddOrphan,
            Seq::empty(),
        ),
        WorktreePhase::CheckedOutOrphan => on_success(
            o,
            (WorktreePhase::Cleared, ActionView::Git(seq!["rm"@, "-rf"@, "."@], path, false)),
            WorktreeFailure::OrphanBranch,
            Seq::empty(),
        ),
        WorktreePhase::Cleared => after_worktree(t),
        WorktreePhase::SyncFetched => on_success(
            o,
            (WorktreePhase::Merged, ActionView::Git(seq!["merge"@, "--ff-only"@, remote], path, false)),
            WorktreeFailure::Fetch,
            Seq::empty(),
        ),
        WorktreePhase::Merged => on_success(
            o,
            (WorktreePhase::Pushed, ActionView::Git(seq!["push"@, "origin"@, branch], path, false)),
            WorktreeFailure::Merge,
            Seq::empty(),
        ),
        WorktreePhase::Pushed => on_success(
            o,
            (WorktreePhase::Finished, ActionView::Finish(Ok(Seq::empty()))),
            WorktreeFailure::Push,
            Seq::empty(),
        ),
        WorktreePhase::CheckedJsonlDir => {
            let d = parent_of(jsonl_path_of(path)).unwrap_or(Seq::empty());
            if o matches ActionOutcome::Exists(true) {
                (WorktreePhase::Finished, ActionView::Finish(Ok(jsonl_path_of(path))))
            } else {
                (WorktreePhase::MadeJsonlDir, ActionView::CreateDir(d))
            }
        },
        WorktreePhase::MadeJsonlDir => on_success(
            o,
            (WorktreePhase::Finished, ActionView::Finish(Ok(jsonl_path_of(path)))),
            WorktreeFailure::JsonlDir,
            parent_of(jsonl_path_of(path)).unwrap_or(Seq::empty()),
        ),
        WorktreePhase::Finished => (WorktreePhase::Finished, ActionView::Finish(Ok(Seq::empty()))),
    }
}

/// A `git` action with the given arguments.
fn git_action(args: Vec<String>, dir: &str, capture: bool) -> (a: WorktreeAction)
    ensures
        a@ == ActionView::Git(args.deep_view(), dir@, capture),
{
    WorktreeAction::Git { args, dir: String::from_str(dir), capture }
}

/// Arguments from a list of words.
fn words2(a: &str, b: &str) -> (r: Vec<String>)
    ensures
        r.deep_view() == seq![a@, b@],
{
    let mut r: Vec<String> = Vec::new();
    r.push(String::from_str(a));
    r.push(String::from_str(b));
    assert(r.deep_view() =~= seq![a@, b@]);
    r
}

/// Arguments from a list of words.
fn words3(a: &str, b: &str, c: &str) -> (r: Vec<String>)
    ensures
        r.deep_view() == seq![a@, b@, c@],
{
    let mut r: Vec<String> = Vec::new();
    r.push(String::from_str(a));
    r.push(String::from_str(b));
    r.push(String::from_str(c));
    assert(r.deep_view() =~= seq![a@, b@, c@]);
    r
}

/// Arguments from a list of words.
fn words5(a: &str, b: &str, c: &str, d: &str, e: &str) -> (r: Vec<String>)
    ensures
        r.deep_view() == seq![a@, b@, c@, d@, e@],
{
    let mut r: Vec<String> = Vec::new();
    r.push(String::from_str(a));
    r.push(String::from_str(b));
    r.push(String::from_str(c));
    r.push(String::from_str(d));
    r.push(String::from_str(e));
    assert(r.deep_view() =~= seq![a@, b@, c@, d@, e@]);
    r
}

impl WorktreeManager {
    /// The worktree operations for a goal, not yet started.
    pub fn begin(&self, goal: WorktreeGoal) -> (t: WorktreeTask)
        ensures
            t.goal == goal,
            t.phase == WorktreePhase::Start,
            t.root@ == self.root_spec(),
            t.branch@ == self.branch_spec(),
            t.path@ == path_join(path_join(self.root_spec(), ".git/beads-worktrees"@), self.branch_spec()),
    {
        WorktreeTask {
            goal,
            phase: WorktreePhase::Start,
            root: self.repo_root.clone(),
            branch: self.sync_branch.clone(),
            path: self.get_worktree_path(),
        }
    }
}

impl WorktreeTask {
    /// The step once the worktree is known to exist.
    fn after_worktree(&self) -> (r: (WorktreePhase, WorktreeAction))
        ensures
            (r.0, r.1@) == after_worktree(*self),
    {
        match self.goal {
            WorktreeGoal::Ensure => (WorktreePhase::Finished, WorktreeAction::Finish(Ok(self.path.clone()))),
            WorktreeGoal::Sync => {
                let a = git_action(words3("fetch", "origin", self.branch.as_str()), self.path.as_str(), false);
                proof {
                    reveal_strlit("fetch");
                    reveal_strlit("origin");
                }
                assert(a@ == ActionView::Git(seq!["fetch"@, "origin"@, self.branch@], self.path@, false));
                (WorktreePhase::SyncFetched, a)
            },
            WorktreeGoal::JsonlPath => {
                let f = join_path(self.path.as_str(), ".beads/issues.jsonl");
                match path_parent(f.as_str()) {
                    Some(d) => (WorktreePhase::CheckedJsonlDir, WorktreeAction::CheckExists(d)),
                    None => (WorktreePhase::Finished, WorktreeAction::Finish(Ok(f))),
                }
            },
        }
    }

    /// Takes the outcome of the last action (anything at the start) and
    /// moves on: the next action, after [`worktree_step`].
    pub fn step(&mut self, outcome: ActionOutcome) -> (a: WorktreeAction)
        ensures
            final(self).phase == worktree_step(*old(self), outcome).0,
            a@ == worktree_step(*old(self), outcome).1,
            final(self).goal == old(self).goal,
            final(self).root == old(self).root,
            final(self).branch == old(self).branch,
            final(self).path == old(self).path,
    {
        let ghost t = *self;
        let failed = match &outcome {
            ActionOutcome::Failed(_) => true,
            _ => false,
        };
        let exists = match &outcome {
            ActionOutcome::Exists(b) => *b,
            _ => false,
        };
        let (phase, action) = match self.phase {
            WorktreePhase::Start => (WorktreePhase::CheckedWorktree, WorktreeAction::CheckExists(self.path.clone())),
            WorktreePhase::CheckedWorktree => {
                if exists {
                    self.after_worktree()
                } else {
                    match path_parent(self.path.as_str()) {
                        Some(d) => (WorktreePhase::MadeParent, WorktreeAction::CreateDir(d)),
                        None => (
                            WorktreePhase::CheckedLocalBranch,
                            git_action(words3("rev-parse", "--verify", self.branch.as_str()), self.root.as_str(), false),
                        ),
                    }
                }
            },
            WorktreePhase::MadeParent => {
                if failed {
                    let d = match path_parent(self.path.as_str()) {
                        Some(d) => d,
                        None => String::new(),
                    };
                    (WorktreePhase::Finished, WorktreeAction::Finish(Err((WorktreeFailure::ParentDir, d))))
                } else {
                    (
                        WorktreePhase::CheckedLocalBranch,
                        git_action(words3("rev-parse", "--verify", self.branch.as_str()), self.root.as_str(), false),
                    )
                }
            },
            WorktreePhase::CheckedLocalBranch => {
                if failed {
                    (WorktreePhase::Fetched, git_action(words2("fetch", "origin"), self.root.as_str(), false))
                } else {
                    (
                        WorktreePhase::AddedWorktree,
                        git_action(words5("worktree", "add", "--detach", self.path.as_str(), self.branch.as_str()),
                            self.root.as_str(),
                            true,
                        ),
                    )
                }
            },
            WorktreePhase::Fetched => {
                let mut remote = String::from_str("origin/");
                remote.append(self.branch.as_str());
                (
                    WorktreePhase::CheckedRemoteBranch,
                    git_action(words3("rev-parse", "--verify", remote.as_str()), self.root.as_str(), false),
                )
            },
            WorktreePhase::CheckedRemoteBranch => {
                if failed {
                    (
                        WorktreePhase::AddedOrphan,
                        git_action(words5("worktree", "add", "--detach", "--no-checkout", self.path.as_str()),
                            self.root.as_str(),
                            true,
                        ),
                    )
                } else {
                    let mut remote = String::from_str("origin/");
                    remote.append(self.branch.as_str());
                    (
                        WorktreePhase::AddedWorktree,
                        git_action(words5("worktree", "add", "--detach", self.path.as_str(), remote.as_str()),
                            self.root.as_str(),
                            true,
                        ),
                    )
                }
            },
            WorktreePhase::AddedWorktree => {
                if failed {
                    (
                        WorktreePhase::Finished,
                        WorktreeAction::Finish(Err((WorktreeFailure::AddWorktree, String::new()))),
                    )
                } else {
                    self.after_worktree()
                }
            },
            WorktreePhase::AddedOrphan => {
                if failed {
                    (WorktreePhase::Finished, WorktreeAction::Finish(Err((WorktreeFailure::AddOrphan, String::new()))))
                } else {
                    (
                        WorktreePhase::CheckedOutOrphan,
                        git_action(words3("checkout", "--orphan", self.branch.as_str()), self.path.as_str(), false),
                    )
                }
            },
            WorktreePhase::CheckedOutOrphan => {
                if failed {
                    (
                        WorktreePhase::Finished,
                        WorktreeAction::Finish(Err((WorktreeFailure::OrphanBranch, String::new()))),
                    )
                } else {
                    (WorktreePhase::Cleared, git_action(words3("rm", "-rf", "."), self.path.as_str(), false))
                }
            },
            WorktreePhase::Cleared => self.after_worktree(),
            WorktreePhase::SyncFetched => {
                if failed {
                    (WorktreePhase::Finished, WorktreeAction::Finish(Err((WorktreeFailure::Fetch, String::new()))))
                } else {
                    let mut remote = String::from_str("origin/");
                    remote.append(self.branch.as_str());
                    (
                        WorktreePhase::Merged,
                        git_action(words3("merge", "--ff-only", remote.as_str()), self.path.as_str(), false),
                    )
                }
            },
            WorktreePhase::Merged => {
                if failed {
                    (WorktreePhase::Finished, WorktreeAction::Finish(Err((WorktreeFailure::Merge, String::new()))))
                } else {
                    (
                        WorktreePhase::Pushed,
                        git_action(words3("push", "origin", self.branch.as_str()), self.path.as_str(), false),
                    )
                }
            },
            WorktreePhase::Pushed => {
                if failed {
                    (WorktreePhase::Finished, WorktreeAction::Finish(Err((WorktreeFailure::Push, String::new()))))
                } else {
                    (WorktreePhase::Finished, WorktreeAction::Finish(Ok(String::new())))
                }
            },
            WorktreePhase::CheckedJsonlDir => {
                let f = join_path(self.path.as_str(), ".beads/issues.jsonl");
                if exists {
                    (WorktreePhase::Finished, WorktreeAction::Finish(Ok(f)))
                } else {
                    let d = match path_parent(f.as_str()) {
                        Some(d) => d,
                        None => String::new(),
                    };
                    (WorktreePhase::MadeJsonlDir, WorktreeAction::CreateDir(d))
                }
            },
            WorktreePhase::MadeJsonlDir => {
                let f = join_path(self.path.as_str(), ".beads/issues.jsonl");
                if failed {
                    let d = match path_parent(f.as_str()) {
                        Some(d) => d,
                        None => String::new(),
                    };
                    (WorktreePhase::Finished, WorktreeAction::Finish(Err((WorktreeFailure::JsonlDir, d))))
                } else {
                    (WorktreePhase::Finished, WorktreeAction::Finish(Ok(f)))
                }
            },
            WorktreePhase::Finished => (WorktreePhase::Finished, WorktreeAction::Finish(Ok(String::new()))),
        };
        proof {
            reveal_strlit("rev-parse");
            reveal_strlit("--verify");
            reveal_strlit("fetch");
            reveal_strlit("origin");
            reveal_strlit("origin/");
            reveal_strlit("worktree");
            reveal_strlit("add");
            reveal_strlit("--detach");
            reveal_strlit("--no-checkout");
            reveal_strlit("checkout");
            reveal_strlit("--orphan");
            reveal_strlit("rm");
            reveal_strlit("-rf");
            reveal_strlit(".");
            reveal_strlit("merge");
            reveal_strlit("--ff-only");
            reveal_strlit("push");
        }
        assert(action@ == worktree_step(t, outcome).1);
        self.phase = phase;
        action
    }
}

/// Every step moves to a later phase until the operations finish, and an
/// action finishes them exactly when the phase reached is the last: the
/// operations end after a bounded number of steps. A step never leaves the
/// phases that fit the goal.
pub proof fn lemma_worktree_steps_advance(t: WorktreeTask, o: ActionOutcome)
    requires
        t.phase != WorktreePhase::Finished,
    ensures
        phase_fits_goal(t.goal, t.phase) ==> phase_fits_goal(t.goal, worktree_step(t, o).0),
        phase_rank(worktree_step(t, o).0) > phase_rank(t.phase),
        (worktree_step(t, o).1 is Finish) <==> worktree_step(t, o).0 == WorktreePhase::Finished,
{
}

/// Operations that only ensure the worktree, when they succeed, give its
/// path; those after the issue file give the issue file's path in it.
pub proof fn lemma_worktree_success_path(t: WorktreeTask, o: ActionOutcome, p: Seq<char>)
    requires
        t.phase != WorktreePhase::Finished,
        phase_fits_goal(t.goal, t.phase),
        worktree_step(t, o).1 == ActionView::Finish(Ok(p)),
    ensures
        t.goal == WorktreeGoal::Ensure ==> p == t.path@,
        t.goal == WorktreeGoal::JsonlPath ==> p == jsonl_path_of(t.path@),
{
}

/// Ensuring a worktree that already exists only looks for it: the first
/// action checks the worktree path, and when it is there the operations end
/// with that path, so no `git` command runs and nothing is created.
pub proof fn lemma_existing_worktree_returned_at_once(t: WorktreeTask, o: ActionOutcome)
    requires
        t.goal == WorktreeGoal::Ensure,
        t.phase == WorktreePhase::Start,
    ensures
        worktree_step(t, o) == (WorktreePhase::CheckedWorktree, ActionView::CheckExists(t.path@)),
        worktree_step(WorktreeTask { phase: WorktreePhase::CheckedWorktree, ..t }, ActionOutcome::Exists(true))
            == (WorktreePhase::Finished, ActionView::Finish(Ok(t.path@))),
{
}
} // verus!
