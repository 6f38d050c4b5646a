//! `pebble add`: a new task's ID, its content and the file names tried for it.
use crate::ids::{id_length_enough, is_id_char, draw_id_suffix, required_random_id_length};
use crate::inputs::RunAddInput;
use crate::models::{LiveStatus, TaskFrontmatter, TaskNode, TaskStatus, Timestamp};
use crate::text::{nat_decimal, push_decimal};
use vstd::prelude::*;
use vstd::string::StringExecFns;

verus! {

/// The last attempt at a free file name for a new task.
pub const MAX_FILENAME_ATTEMPT: u32 = 999;

/// A suffix of random ID characters whose length is the one
/// `required_random_id_length` gives for `n` tasks.
pub open spec fn fresh_suffix(n: nat, s: Seq<char>) -> bool {
    &&& s.len() >= 8
    &&& n == 0 ==> s.len() == 8
    &&& n > 0 ==> id_length_enough(n, s.len())
    &&& n > 0 && s.len() > 8 ==> !id_length_enough(n, (s.len() - 1) as nat)
    &&& forall|i: int| 0 <= i < s.len() ==> is_id_char(#[trigger] s[i])
}

/// Draws the ID of a new task in a project of `task_count` tasks:
/// `<prefix>-<suffix>` with a random suffix of the required length. Which
/// suffix comes out is left to chance.
pub fn draw_task_id(prefix: &str, task_count: usize) -> (r: String)
    ensures
        exists|s: Seq<char>| r@ == prefix@ + "-"@ + s && fresh_suffix(task_count as nat, s),
{
    let len = required_random_id_length(task_count);
    let suffix = draw_id_suffix(len);
    let mut id = String::from_str(prefix);
    id.append("-");
    id.append(suffix.as_str());
    assert(fresh_suffix(task_count as nat, suffix@));
    id
}

/// The status of a new task: the one asked for, else `todo`.
pub open spec fn new_status(s: Option<TaskStatus>) -> TaskStatus {
    match s {
        Some(s) => s,
        None => TaskStatus::Live(LiveStatus::Todo),
    }
}

/// A new task at path `path` with ID `id`, created at `now` from the
/// `add` input, and the tasks it is to block. It is resolved at `now` when
/// created closed; it has no modification time and no unknown keys; a
/// missing body is empty.
pub fn new_task(input: RunAddInput, id: String, path: String, now: Timestamp) -> (r: (TaskNode, Vec<String>))
    ensures
        r.0.path@ == path@,
        r.0.frontmatter.id@ == id@,
        r.0.frontmatter.title@ == input.title@,
        r.0.frontmatter.status == new_status(input.status),
        r.0.frontmatter.priority == input.priority,
        r.0.frontmatter.created_at == Some(now),
        r.0.frontmatter.modified_at is None,
        r.0.frontmatter.resolved_at == (if new_status(input.status) is Closed {
            Some(now)
        } else {
            None
        }),
        r.0.frontmatter.needs.deep_view() == input.needs.deep_view(),
        r.0.frontmatter.tags.deep_view() == input.tags.deep_view(),
        r.0.frontmatter.extra@.len() == 0,
        r.0.body@ == (match input.body {
            Some(b) => b@,
            None => Seq::empty(),
        }),
        r.1.deep_view() == input.blocks.deep_view(),
{
    let RunAddInput { title, status, priority, body, needs, tags, blocks } = input;
    let status = match status {
        Some(s) => s,
        None => TaskStatus::todo(),
    };
    let resolved_at = if status.is_closed() {
        Some(now)
    } else {
        None
    };
    let body = match body {
        Some(b) => b,
        None => String::new(),
    };
    let frontmatter = TaskFrontmatter {
        id,
        title,
        status,
        priority,
        created_at: Some(now),
        modified_at: None,
        resolved_at,
        needs,
        tags,
        extra: Vec::new(),
    };
    (TaskNode { path, frontmatter, body }, blocks)
}

/// The file name tried for a new task at a given attempt: `<slug>.md` at the
/// first, `<slug>-<attempt>.md` from the second on, and none after
/// [`MAX_FILENAME_ATTEMPT`].
pub open spec fn task_file_name_spec(slug: Seq<char>, attempt: nat) -> Option<Seq<char>> {
    if attempt == 1 {
        Some(slug + ".md"@)
    } else if 2 <= attempt <= MAX_FILENAME_ATTEMPT {
        Some(slug + "-"@ + nat_decimal(attempt) + ".md"@)
    } else {
        None
    }
}

/// The file name tried for a new task at a given attempt.
pub fn task_file_name(slug: &str, attempt: u32) -> (r: Option<String>)
    ensures
        match r {
            Some(s) => task_file_name_spec(slug@, attempt as nat) == Some(s@),
            None => task_file_name_spec(slug@, attempt as nat) is None,
        },
{
    if attempt == 1 {
        let mut s = String::from_str(slug);
        s.append(".md");
        Some(s)
    } else if 2 <= attempt && attempt <= MAX_FILENAME_ATTEMPT {
        let mut s = String::from_str(slug);
        s.append("-");
        push_decimal(&mut s, attempt as u64);
        s.append(".md");
        Some(s)
    } else {
        None
    }
}

/// The message when every file name tried for a new task was taken.
pub fn unique_filename_error(title: &str) -> (r: String)
    ensures
        r@ == "Failed to find a unique filename for task after 1000 attempts: "@ + title@,
{
    let mut s = String::from_str("Failed to find a unique filename for task after 1000 attempts: ");
    s.append(title);
    s
}

} // verus!
