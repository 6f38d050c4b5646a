//! Command context and the checks and lookups shared by several commands.
use crate::config::Config;
use crate::graph::{has_id, TaskGraph};
use crate::models::{CommandError, UsageError};
use crate::strs::push_unique;
use crate::text::{contains_str, i64_decimal, int_decimal, same_str};
use crate::worktree::{join_path, path_join};
use vstd::prelude::*;
use vstd::string::StringExecFns;

verus! {

/// The entries of `s` with later repeats dropped, in order.
pub open spec fn dedup_first(s: Seq<Seq<char>>) -> Seq<Seq<char>>
    decreases s.len(),
{
    if s.len() == 0 {
        s
    } else {
        let d = dedup_first(s.drop_last());
        if d.contains(s.last()) {
            d
        } else {
            d.push(s.last())
        }
    }
}

/// A target that is refused: not the task itself, and either found in several
/// files or not found at all.
pub open spec fn bad_target(g: TaskGraph, self_id: Option<Seq<char>>, t: Seq<char>) -> bool {
    self_id != Some(t) && (g.duplicate_ids.deep_view().contains(t) || !has_id(g.nodes@, t))
}

/// The message for a target found in several files.
pub open spec fn duplicate_target_message(t: Seq<char>) -> Seq<char> {
    "Duplicate task ID '"@ + t + "' found in multiple files; cannot safely target this ID."@
}

/// The message for a target that does not exist.
pub open spec fn missing_target_message(t: Seq<char>, flag: Seq<char>) -> Seq<char> {
    "Task '"@ + t + "' not found for "@ + flag
}

/// The characters of an optional text.
pub open spec fn opt_chars(o: Option<&str>) -> Option<Seq<char>> {
    match o {
        Some(x) => Some(x@),
        None => None,
    }
}

/// Validates and deduplicates task IDs given on the command line.
///
/// The IDs are taken in order, repeats dropped. The first one that is not
/// `self_id` and is a duplicate ID (a runtime error) or names no task (a
/// usage error) is refused; otherwise the deduplicated list is returned.
pub fn validate_task_references(
    graph: &TaskGraph,
    targets: Vec<String>,
    self_id: Option<&str>,
    flag_name: &str,
) -> (r: Result<Vec<String>, CommandError>)
    ensures
        ({
            let d = dedup_first(targets.deep_view());
            let s = opt_chars(self_id);
            &&& (r is Ok <==> forall|k: int| 0 <= k < d.len() ==> !bad_target(*graph, s, #[trigger] d[k]))
            &&& (r matches Ok(v) ==> v.deep_view() == d)
            &&& (r matches Err(e) ==> exists|k: int|
                0 <= k < d.len() && #[trigger] bad_target(*graph, s, d[k]) && (forall|j: int|
                    0 <= j < k ==> !bad_target(*graph, s, d[j])) && (if graph.duplicate_ids.deep_view().contains(
                    d[k],
                ) {
                    e matches CommandError::Runtime(m) && m@ == duplicate_target_message(d[k])
                } else {
                    e matches CommandError::Usage(u) && u.0@ == missing_target_message(d[k], flag_name@)
                }))
        }),
{
    let ghost s = opt_chars(self_id);
    let mut deduped: Vec<String> = Vec::new();
    let mut i: usize = 0;
    while i < targets.len()
        invariant
            i <= targets.len(),
            s == opt_chars(self_id),
            deduped.deep_view() == dedup_first(targets.deep_view().take(i as int)),
            forall|k: int| 0 <= k < deduped.len() ==> !bad_target(*graph, s, #[trigger] deduped.deep_view()[k]),
        decreases targets.len() - i,
    {
        let t = &targets[i];
        proof {
            let tk = targets.deep_view().take(i + 1);
            assert(tk.drop_last() =~= targets.deep_view().take(i as int));
            assert(tk.last() == t@);
        }
        if contains_str(&deduped, t.as_str()) {
            i = i + 1;
            continue;
        }
        let is_self = match self_id {
            Some(sid) => same_str(t.as_str(), sid),
            None => false,
        };
        if !is_self {
            if graph.is_duplicate_id(t.as_str()) {
                let mut m = String::from_str("Duplicate task ID '");
                m.append(t.as_str());
                m.append("' found in multiple files; cannot safely target this ID.");
                proof {
                    lemma_refused_at(targets.deep_view(), deduped.deep_view(), i as int, t@);
                    let d = dedup_first(targets.deep_view());
                    let k = deduped.len() as int;
                    assert(d[k] == t@);
                    assert(bad_target(*graph, s, d[k]));
                    assert forall|j: int| 0 <= j < k implies !bad_target(*graph, s, d[j]) by {
                        assert(deduped.deep_view()[j] == d[j]);
                    }
                }
                return Err(CommandError::Runtime(m));
            }
            if !graph.contains_key(t.as_str()) {
                let mut m = String::from_str("Task '");
                m.append(t.as_str());
                m.append("' not found for ");
                m.append(flag_name);
                proof {
                    lemma_refused_at(targets.deep_view(), deduped.deep_view(), i as int, t@);
                    let d = dedup_first(targets.deep_view());
                    let k = deduped.len() as int;
                    assert(d[k] == t@);
                    assert(bad_target(*graph, s, d[k]));
                    assert forall|j: int| 0 <= j < k implies !bad_target(*graph, s, d[j]) by {
                        assert(deduped.deep_view()[j] == d[j]);
                    }
                }
                return Err(CommandError::Usage(UsageError(m)));
            }
        }
        let ghost before = deduped.deep_view();
        deduped.push(t.clone());
        assert(deduped.deep_view() =~= before.push(t@));
        i = i + 1;
    }
    assert(targets.deep_view().take(targets.len() as int) =~= targets.deep_view());
    Ok(deduped)
}

/// When the target at position `i` was not seen before, it stands in the
/// deduplicated list right after the targets deduplicated so far.
pub proof fn lemma_refused_at(s: Seq<Seq<char>>, before: Seq<Seq<char>>, i: int, t: Seq<char>)
    requires
        0 <= i < s.len(),
        s[i] == t,
        before == dedup_first(s.take(i)),
        !before.contains(t),
    ensures
        before.len() < dedup_first(s).len(),
        dedup_first(s)[before.len() as int] == t,
        forall|j: int| 0 <= j < before.len() ==> #[trigger] dedup_first(s)[j] == before[j],
{
    let tk = s.take(i + 1);
    assert(tk.drop_last() =~= s.take(i));
    assert(dedup_first(tk) == before.push(t));
    lemma_dedup_prefix(s, i + 1);
    assert forall|j: int| 0 <= j < before.len() implies #[trigger] dedup_first(s)[j] == before[j] by {
        assert(dedup_first(tk)[j] == before[j]);
    }
    assert(dedup_first(tk)[before.len() as int] == t);
}

/// The deduplication of a prefix is a prefix of the deduplication.
pub proof fn lemma_dedup_prefix(s: Seq<Seq<char>>, i: int)
    requires
        0 <= i <= s.len(),
    ensures
        dedup_first(s.take(i)).len() <= dedup_first(s).len(),
        forall|k: int| 0 <= k < dedup_first(s.take(i)).len() ==> #[trigger] dedup_first(s)[k] == dedup_first(s.take(i))[k],
    decreases s.len() - i,
{
    if i < s.len() {
        lemma_dedup_prefix(s, i + 1);
        assert(s.take(i + 1).drop_last() =~= s.take(i));
    } else {
        assert(s.take(i) =~= s);
    }
}

/// The configuration keys, in order, each with its value.
pub open spec fn config_entries(c: Config) -> Seq<(Seq<char>, Seq<char>)> {
    seq![
        ("archive-threshold-days"@, int_decimal(c.archive_threshold_days as int)),
        ("issue-prefix"@, c.issue_prefix@),
        ("tasks-dir"@, c.tasks_dir@),
    ]
}

/// The resolved configuration values by key, in key order.
pub fn config_values_map(config: &Config) -> (r: Vec<(String, String)>)
    ensures
        r@.len() == 3,
        forall|k: int| 0 <= k < 3 ==> (#[trigger] r@[k]).0@ == config_entries(*config)[k].0 && r@[k].1@
            == config_entries(*config)[k].1,
{
    let mut r: Vec<(String, String)> = Vec::new();
    r.push((String::from_str("archive-threshold-days"), i64_decimal(config.archive_threshold_days)));
    r.push((String::from_str("issue-prefix"), config.issue_prefix.clone()));
    r.push((String::from_str("tasks-dir"), config.tasks_dir.clone()));
    r
}

/// The message for an unknown configuration key.
pub open spec fn unknown_key_message(key: Seq<char>) -> Seq<char> {
    "Unknown config key '"@ + key + "'. Supported keys: archive-threshold-days, issue-prefix, tasks-dir"@
}

/// Reads one resolved configuration value by key; an unknown key is a
/// usage error that lists the supported keys.
pub fn config_get(config: &Config, key: &str) -> (r: Result<String, UsageError>)
    ensures
        match r {
            Ok(v) => exists|k: int| 0 <= k < 3 && #[trigger] config_entries(*config)[k].0 == key@ && v@ == config_entries(*config)[k].1,
            Err(e) => (forall|k: int| 0 <= k < 3 ==> #[trigger] config_entries(*config)[k].0 != key@) && e.0@
                == unknown_key_message(key@),
        },
{
    let values = config_values_map(config);
    let mut k: usize = 0;
    while k < values.len()
        invariant
            values@.len() == 3,
            forall|j: int| 0 <= j < 3 ==> (#[trigger] values@[j]).0@ == config_entries(*config)[j].0 && values@[j].1@
                == config_entries(*config)[j].1,
            k <= 3,
            forall|j: int| 0 <= j < k ==> #[trigger] config_entries(*config)[j].0 != key@,
        decreases 3 - k,
    {
        if same_str(values[k].0.as_str(), key) {
            let v = values[k].1.clone();
            assert(config_entries(*config)[k as int].0 == key@);
            return Ok(v);
        }
        k = k + 1;
    }
    let mut m = String::from_str("Unknown config key '");
    m.append(key);
    m.append("'. Supported keys: archive-threshold-days, issue-prefix, tasks-dir");
    Err(UsageError(m))
}

/// Resolved runtime configuration and paths for command execution.
pub struct RunContext {
    pub current_dir: String,
    pub project_root: Option<String>,
    pub config: Config,
    pub tasks_dir: String,
    pub json: bool,
}

/// The tasks directory: the `--dir` override (taken as is when absolute,
/// else under the current directory), or the configured directory under the
/// project root, or under the current directory when there is no root.
pub open spec fn tasks_dir_for(
    current_dir: Seq<char>,
    project_root: Option<Seq<char>>,
    dir_override: Option<Seq<char>>,
    config_dir: Seq<char>,
) -> Seq<char> {
    match dir_override {
        Some(d) => path_join(current_dir, d),
        None => match project_root {
            Some(root) => path_join(root, config_dir),
            None => path_join(current_dir, config_dir),
        },
    }
}

/// The characters of an optional string.
pub open spec fn opt_string_chars(o: Option<String>) -> Option<Seq<char>> {
    match o {
        Some(x) => Some(x@),
        None => None,
    }
}

/// Resolves the tasks directory (see [`tasks_dir_for`]).
pub fn resolve_tasks_dir(
    current_dir: &str,
    project_root: &Option<String>,
    dir_override: &Option<String>,
    config_dir: &str,
) -> (r: String)
    ensures
        r@ == tasks_dir_for(current_dir@, opt_string_chars(*project_root), opt_string_chars(*dir_override), config_dir@),
{
    match dir_override {
        Some(d) => join_path(current_dir, d.as_str()),
        None => match project_root {
            Some(root) => join_path(root.as_str(), config_dir),
            None => join_path(current_dir, config_dir),
        },
    }
}

/// The configuration file: the `--config` override, or
/// `.pebble/config.toml` under the project root, or relative to the current
/// directory when there is no root.
pub fn config_path_for(config_override: &Option<String>, project_root: &Option<String>) -> (r: String)
    ensures
        r@ == match *config_override {
            Some(c) => c@,
            None => match *project_root {
                Some(root) => path_join(path_join(root@, ".pebble"@), "config.toml"@),
                None => ".pebble/config.toml"@,
            },
        },
{
    match config_override {
        Some(c) => c.clone(),
        None => match project_root {
            Some(root) => {
                let p = join_path(root.as_str(), ".pebble");
                join_path(p.as_str(), "config.toml")
            },
            None => String::from_str(".pebble/config.toml"),
        },
    }
}

/// The message when no project is found.
pub open spec fn no_project_message() -> Seq<char> {
    "No pebble project found. Run 'pebble init' to create one, or use '--dir' to specify a tasks directory."@
}

impl RunContext {
    /// Checks that a project exists: a project root was found or the tasks
    /// directory exists (`tasks_dir_exists`).
    pub fn ensure_project(&self, tasks_dir_exists: bool) -> (r: Result<(), CommandError>)
        ensures
            r is Ok <==> (self.project_root is Some || tasks_dir_exists),
            r matches Err(e) ==> e matches CommandError::Runtime(m) && m@ == no_project_message(),
    {
        if self.project_root.is_some() || tasks_dir_exists {
            Ok(())
        } else {
            Err(CommandError::Runtime(String::from_str(
                "No pebble project found. Run 'pebble init' to create one, or use '--dir' to specify a tasks directory.",
            )))
        }
    }
}

} // verus!
