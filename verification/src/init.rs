//! `pebble init`: the settings of a new project and its configuration file.
use crate::config::{
    absolute_dir_message, default_issue_prefix, default_issue_prefix_spec, default_tasks_dir, default_tasks_dir_spec,
    has_parent_component, is_absolute_path, parent_dir_message, validate_tasks_dir,
};
use crate::models::UsageError;
use vstd::prelude::*;
use vstd::string::StringExecFns;
use vstd::utf8::{decode_utf8, valid_utf8};

verus! {

/// The text `String::from_utf8_lossy` makes of some bytes: each invalid
/// UTF-8 sequence replaced by U+FFFD.
pub uninterp spec fn lossy_text(bytes: Seq<u8>) -> Seq<char>;

/// Decodes bytes with `String::from_utf8_lossy`. The result is the named
/// [`lossy_text`] of the bytes, and the decoded text itself when the bytes
/// are valid UTF-8 (then nothing is replaced).
#[verifier::external_body]
fn utf8_lossy(bytes: &[u8]) -> (r: String)
    ensures
        r@ == lossy_text(bytes@),
        valid_utf8(bytes@) ==> r@ == decode_utf8(bytes@),
{
    String::from_utf8_lossy(bytes).into_owned()
}

/// The text of a path for JSON output: its bytes decoded as UTF-8, each
/// invalid sequence replaced by U+FFFD.
pub fn path_to_lossy_json_string(path: &[u8]) -> (r: String)
    ensures
        r@ == lossy_text(path@),
        valid_utf8(path@) ==> r@ == decode_utf8(path@),
{
    utf8_lossy(path)
}

/// The settings of a new project: the issue prefix asked for (else
/// `issue`), and the tasks directory asked for (else `docs/pebble/`), which
/// must be relative and free of `..` components.
pub fn init_settings(issue_prefix: Option<String>, dir_override: Option<String>) -> (r: Result<
    (String, String),
    UsageError,
>)
    ensures
        r is Ok <==> (dir_override matches Some(d) ==> !is_absolute_path(d@) && !has_parent_component(d@)),
        r matches Ok((p, d)) ==> p@ == (match issue_prefix {
            Some(p) => p@,
            None => default_issue_prefix_spec(),
        }) && d@ == (match dir_override {
            Some(d) => d@,
            None => default_tasks_dir_spec(),
        }),
        r matches Err(e) ==> (dir_override matches Some(d) && e.0@ == (if is_absolute_path(d@) {
            absolute_dir_message(d@)
        } else {
            parent_dir_message(d@)
        })),
{
    let prefix = match issue_prefix {
        Some(p) => p,
        None => default_issue_prefix(),
    };
    let dir = match dir_override {
        Some(d) => {
            match validate_tasks_dir(d.as_str()) {
                Ok(()) => d,
                Err(m) => {
                    return Err(UsageError(m));
                },
            }
        },
        None => default_tasks_dir(),
    };
    Ok((prefix, dir))
}

/// The configuration file of a new project.
pub open spec fn init_config_spec(prefix: Seq<char>, tasks_dir: Seq<char>) -> Seq<char> {
    "issue-prefix = \""@ + prefix + "\"\ntasks-dir = \""@ + tasks_dir + "\"\n"@
}

/// The configuration file of a new project:
/// `issue-prefix = "<prefix>"` and `tasks-dir = "<dir>"`, one per line.
pub fn init_config_text(prefix: &str, tasks_dir: &str) -> (r: String)
    ensures
        r@ == init_config_spec(prefix@, tasks_dir@),
{
    let mut s = String::from_str("issue-prefix = \"");
    s.append(prefix);
    s.append("\"\ntasks-dir = \"");
    s.append(tasks_dir);
    s.append("\"\n");
    s
}

} // verus!
