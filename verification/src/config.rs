//! Project configuration: defaults, validation of the tasks directory and
//! the search for the project root.
use vstd::prelude::*;
use vstd::string::StringExecFns;

verus! {

/// Resolved project configuration loaded from `.pebble/config.toml`.
#[derive(Debug)]
pub struct Config {
    /// Prefix prepended to generated task IDs (e.g. `"issue"` produces `"issue-abc123"`).
    pub issue_prefix: String,
    /// Path to the tasks directory, relative to the project root.
    pub tasks_dir: String,
    /// Number of days a terminal task must be resolved before it is eligible for archiving.
    pub archive_threshold_days: i64,
}

/// The default issue prefix.
pub open spec fn default_issue_prefix_spec() -> Seq<char> {
    "issue"@
}

/// The default tasks directory.
pub open spec fn default_tasks_dir_spec() -> Seq<char> {
    "docs/pebble/"@
}

/// The default issue prefix, `issue`.
pub fn default_issue_prefix() -> (s: String)
    ensures
        s@ == default_issue_prefix_spec(),
{
    String::from_str("issue")
}

/// The default tasks directory, `docs/pebble/`.
pub fn default_tasks_dir() -> (s: String)
    ensures
        s@ == default_tasks_dir_spec(),
{
    String::from_str("docs/pebble/")
}

/// The default archive threshold, 30 days.
pub fn default_archive_threshold_days() -> (d: i64)
    ensures
        d == 30,
{
    30
}

impl Default for Config {
    fn default() -> (c: Self)
        ensures
            c.issue_prefix@ == default_issue_prefix_spec(),
            c.tasks_dir@ == default_tasks_dir_spec(),
            c.archive_threshold_days == 30,
    {
        Config {
            issue_prefix: default_issue_prefix(),
            tasks_dir: default_tasks_dir(),
            archive_threshold_days: default_archive_threshold_days(),
        }
    }
}

impl Clone for Config {
    fn clone(&self) -> (c: Self)
        ensures
            c.issue_prefix@ == self.issue_prefix@,
            c.tasks_dir@ == self.tasks_dir@,
            c.archive_threshold_days == self.archive_threshold_days,
    {
        Config {
            issue_prefix: self.issue_prefix.clone(),
            tasks_dir: self.tasks_dir.clone(),
            archive_threshold_days: self.archive_threshold_days,
        }
    }
}

/// The path starts at the filesystem root.
pub open spec fn is_absolute_path(p: Seq<char>) -> bool {
    p.len() > 0 && p[0] == '/'
}

/// Some `/`-separated component of the path is `..`.
pub open spec fn has_parent_component(p: Seq<char>) -> bool {
    exists|i: int|
        0 <= i && i + 2 <= p.len() && #[trigger] p[i] == '.' && p[i + 1] == '.' && (i == 0 || p[i - 1] == '/') && (
        i + 2 == p.len() || p[i + 2] == '/')
}

/// The message for an absolute tasks directory.
pub open spec fn absolute_dir_message(p: Seq<char>) -> Seq<char> {
    "Configuration error: 'tasks-dir' must be a relative path to the project root. Found: "@ + p
}

/// The message for a tasks directory with a `..` component.
pub open spec fn parent_dir_message(p: Seq<char>) -> Seq<char> {
    "Configuration error: 'tasks-dir' must not contain parent directory components ('..'). Found: "@ + p
}

/// Whether some component of the path is `..`.
pub fn contains_parent_component(p: &str) -> (r: bool)
    ensures
        r == has_parent_component(p@),
{
    let v = crate::text::chars_of(p);
    let n = v.len();
    let mut i: usize = 0;
    while i < n && n - i >= 2
        invariant
            v@ == p@,
            n == v.len(),
            i <= n,
            forall|k: int|
                0 <= k < i && k + 2 <= n ==> !(#[trigger] v@[k] == '.' && v@[k + 1] == '.' && (k == 0 || v@[k - 1]
                    == '/') && (k + 2 == n || v@[k + 2] == '/')),
        decreases n - i,
    {
        if v[i] == '.' && v[i + 1] == '.' && (i == 0 || v[i - 1] == '/') && (i + 2 == n || v[i + 2] == '/') {
            return true;
        }
        i = i + 1;
    }
    false
}

/// Validates that the tasks directory is relative and has no `..` component.
///
/// An absolute path is reported first; otherwise a path with a `..`
/// component; otherwise the path is accepted.
pub fn validate_tasks_dir(path: &str) -> (r: Result<(), String>)
    ensures
        r is Ok <==> !is_absolute_path(path@) && !has_parent_component(path@),
        r matches Err(m) ==> m@ == (if is_absolute_path(path@) {
            absolute_dir_message(path@)
        } else {
            parent_dir_message(path@)
        }),
{
    let v = crate::text::chars_of(path);
    if v.len() > 0 && v[0] == '/' {
        let mut m = String::from_str(
            "Configuration error: 'tasks-dir' must be a relative path to the project root. Found: ",
        );
        m.append(path);
        return Err(m);
    }
    if contains_parent_component(path) {
        let mut m = String::from_str(
            "Configuration error: 'tasks-dir' must not contain parent directory components ('..'). Found: ",
        );
        m.append(path);
        return Err(m);
    }
    Ok(())
}

/// Whether the text holds only whitespace (a configuration file with nothing
/// in it selects the defaults).
pub fn is_blank(s: &str) -> (r: bool)
    ensures
        r == (forall|i: int| 0 <= i < s@.len() ==> crate::text::is_space(#[trigger] s@[i])),
{
    let v = crate::text::chars_of(s);
    let mut i: usize = 0;
    while i < v.len()
        invariant
            v@ == s@,
            i <= v.len(),
            forall|k: int| 0 <= k < i ==> crate::text::is_space(#[trigger] v@[k]),
        decreases v.len() - i,
    {
        if !crate::text::is_space_char(v[i]) {
            return false;
        }
        i = i + 1;
    }
    true
}

/// Resolves the project root: the first of the given ancestors (nearest
/// first) that holds a `.pebble` directory.
///
/// `has_marker[i]` tells whether `ancestors[i]` holds `.pebble`.
pub fn find_project_root(ancestors: &Vec<String>, has_marker: &Vec<bool>) -> (r: Option<String>)
    requires
        ancestors.len() == has_marker.len(),
    ensures
        r is None <==> forall|i: int| 0 <= i < has_marker.len() ==> !has_marker@[i],
        r matches Some(root) ==> exists|i: int|
            0 <= i < has_marker.len() && #[trigger] has_marker@[i] && root@ == ancestors@[i]@ && forall|j: int|
                0 <= j < i ==> !has_marker@[j],
{
    let mut i: usize = 0;
    while i < ancestors.len()
        invariant
            ancestors.len() == has_marker.len(),
            i <= ancestors.len(),
            forall|j: int| 0 <= j < i ==> !has_marker@[j],
        decreases ancestors.len() - i,
    {
        if has_marker[i] {
            return Some(ancestors[i].clone());
        }
        i = i + 1;
    }
    None
}

} // verus!
