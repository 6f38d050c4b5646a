//! The JSON view of a task: its fields plus what the graph says of it.
use crate::clock::{format_rfc3339, rfc3339_text};
use crate::graph::{dependents_listed, id_of, live_id, need_closed, ready, TaskGraph};
use crate::models::{Priority, TaskNode, TaskStatus, Timestamp};
use crate::text::contains_str;
use vstd::prelude::*;
use vstd::string::StringExecFns;

verus! {

/// The relative path that `Path::strip_prefix` gives `path` under `base`
/// (rendered back as text), or `None` when `base` is not a prefix of it.
pub uninterp spec fn path_relative(path: Seq<char>, base: Seq<char>) -> Option<Seq<char>>;

/// Strips the directory `base` from the front of `path` with
/// `std::path::Path::strip_prefix`; the result is the named
/// [`path_relative`] of the two.
#[verifier::external_body]
pub(crate) fn strip_path_prefix(path: &str, base: &str) -> (r: Option<String>)
    ensures
        match r {
            Some(s) => path_relative(path@, base@) == Some(s@),
            None => path_relative(path@, base@) is None,
        },
{
    match std::path::Path::new(path).strip_prefix(base) {
        Ok(rel) => Some(rel.display().to_string()),
        Err(_) => None,
    }
}

/// The RFC 3339 text of an optional instant (`None` when absent or when
/// the instant cannot be represented).
pub open spec fn time_text(t: Option<Timestamp>) -> Option<Seq<char>> {
    match t {
        Some(x) => rfc3339_text(x.secs, x.nanos),
        None => None,
    }
}

/// The characters of an optional string.
pub open spec fn opt_chars(o: Option<String>) -> Option<Seq<char>> {
    match o {
        Some(x) => Some(x@),
        None => None,
    }
}

/// Formats an optional instant as RFC 3339 text.
pub fn opt_rfc3339(t: Option<Timestamp>) -> (r: Option<String>)
    ensures
        opt_chars(r) == time_text(t),
{
    match t {
        Some(x) => format_rfc3339(x),
        None => None,
    }
}

/// A task as the JSON output shows it.
#[derive(Debug)]
pub struct TaskObject {
    pub id: String,
    pub title: String,
    pub status: TaskStatus,
    pub priority: Option<Priority>,
    pub created_at: String,
    pub modified_at: Option<String>,
    pub resolved_at: Option<String>,
    pub needs: Vec<String>,
    pub tags: Vec<String>,
    pub is_ready: bool,
    pub blocked_by: Vec<String>,
    pub blocking: Vec<String>,
    pub body: String,
    pub path: String,
}

/// The prerequisites that block a task: those that are missing or not terminal.
pub open spec fn blockers(g: Seq<TaskNode>, needs: Seq<Seq<char>>) -> Seq<Seq<char>> {
    needs.filter(|d: Seq<char>| !need_closed(g, d))
}

/// The tasks that task `id` blocks, as listed: the graph's dependents of
/// `id` (each once per listing, see [`dependents_listed`]) whose task is
/// actionable.
pub open spec fn live_dependents(g: Seq<TaskNode>, id: Seq<char>) -> Seq<Seq<char>> {
    dependents_listed(g, id).filter(|x: Seq<char>| live_id(g, x))
}

/// The path shown for a task: relative to the tasks directory when it lies
/// under it, else as stored.
pub open spec fn shown_path(path: Seq<char>, tasks_dir: Seq<char>) -> Seq<char> {
    match path_relative(path, tasks_dir) {
        Some(r) => r,
        None => path,
    }
}

/// The path shown for a task: relative to `base` when it lies under it,
/// else as stored (see [`shown_path`]).
pub fn display_path(path: &str, base: &str) -> (r: String)
    ensures
        r@ == shown_path(path@, base@),
{
    match strip_path_prefix(path, base) {
        Some(r) => r,
        None => String::from_str(path),
    }
}

impl TaskObject {
    /// Builds the JSON view of a task of the graph.
    pub fn from_node(node: &TaskNode, graph: &TaskGraph, tasks_dir: &str) -> (o: TaskObject)
        requires
            graph.wf(),
        ensures
            o.id@ == node.frontmatter.id@,
            o.title@ == node.frontmatter.title@,
            o.status == node.frontmatter.status,
            o.priority == node.frontmatter.priority,
            o.created_at@ == match time_text(node.frontmatter.created_at) {
                Some(t) => t,
                None => Seq::<char>::empty(),
            },
            opt_chars(o.modified_at) == time_text(node.frontmatter.modified_at),
            opt_chars(o.resolved_at) == time_text(node.frontmatter.resolved_at),
            o.needs.deep_view() == node.frontmatter.needs.deep_view(),
            o.tags.deep_view() == node.frontmatter.tags.deep_view(),
            o.is_ready == ready(graph.nodes@, node.frontmatter.id@),
            o.blocked_by.deep_view() == blockers(graph.nodes@, node.frontmatter.needs.deep_view()),
            o.blocking.deep_view() == live_dependents(graph.nodes@, node.frontmatter.id@),
            o.body@ == node.body@,
            o.path@ == shown_path(node.path@, tasks_dir@),
    {
        let fm = &node.frontmatter;
        let is_ready = graph.is_ready(fm.id.as_str());
        let ghost g = graph.nodes@;
        let ghost bpred = |d: Seq<char>| !need_closed(g, d);
        let mut blocked_by: Vec<String> = Vec::new();
        let mut i: usize = 0;
        while i < node.frontmatter.needs.len()
            invariant
                graph.wf(),
                g == graph.nodes@,
                bpred == (|d: Seq<char>| !need_closed(g, d)),
                i <= node.frontmatter.needs.len(),
                blocked_by.deep_view() == node.frontmatter.needs.deep_view().take(i as int).filter(bpred),
            decreases node.frontmatter.needs.len() - i,
        {
            let dep = &node.frontmatter.needs[i];
            let open = match graph.find(dep.as_str()) {
                Some(j) => !graph.nodes[j].frontmatter.status.is_closed(),
                None => true,
            };
            proof {
                let t = node.frontmatter.needs.deep_view().take(i + 1);
                assert(t.drop_last() =~= node.frontmatter.needs.deep_view().take(i as int));
                assert(t.last() == dep@);
                reveal(Seq::filter);
                if need_closed(g, dep@) {
                    let jj = choose|jj: int| 0 <= jj < g.len() && #[trigger] id_of(g[jj]) == dep@ && g[jj].frontmatter.status is Closed;
                }
                assert(open == !need_closed(g, dep@));
            }
            if open {
                let ghost before = blocked_by.deep_view();
                blocked_by.push(dep.clone());
                assert(blocked_by.deep_view() =~= before.push(dep@));
            }
            i = i + 1;
        }
        assert(node.frontmatter.needs.deep_view().take(node.frontmatter.needs.len() as int) =~= node.frontmatter.needs.deep_view());
        let deps = graph.blocking(fm.id.as_str());
        let ghost d = deps.deep_view();
        let ghost lpred = |x: Seq<char>| live_id(g, x);
        let mut blocking: Vec<String> = Vec::new();
        let mut j: usize = 0;
        while j < deps.len()
            invariant
                graph.wf(),
                g == graph.nodes@,
                d == deps.deep_view(),
                lpred == (|x: Seq<char>| live_id(g, x)),
                j <= d.len(),
                blocking.deep_view() == d.take(j as int).filter(lpred),
            decreases d.len() - j,
        {
            let x = &deps[j];
            let keep = match graph.find(x.as_str()) {
                Some(k) => graph.nodes[k].frontmatter.status.is_actionable(),
                None => false,
            };
            proof {
                let t = d.take(j + 1);
                assert(t.drop_last() =~= d.take(j as int));
                assert(t.last() == x@);
                reveal(Seq::filter);
                if live_id(g, x@) {
                    let k2 = choose|k2: int| 0 <= k2 < g.len() && #[trigger] id_of(g[k2]) == x@ && g[k2].frontmatter.status is Live;
                }
                assert(keep == live_id(g, x@));
            }
            if keep {
                let ghost before = blocking.deep_view();
                blocking.push(x.clone());
                assert(blocking.deep_view() =~= before.push(x@));
            }
            j = j + 1;
        }
        assert(d.take(d.len() as int) =~= d);
        let created_at = match opt_rfc3339(fm.created_at) {
            Some(t) => t,
            None => String::new(),
        };
        let path = display_path(node.path.as_str(), tasks_dir);
        TaskObject {
            id: fm.id.clone(),
            title: fm.title.clone(),
            status: fm.status,
            priority: fm.priority,
            created_at,
            modified_at: opt_rfc3339(fm.modified_at),
            resolved_at: opt_rfc3339(fm.resolved_at),
            needs: crate::text::copy_strs(&fm.needs),
            tags: crate::text::copy_strs(&fm.tags),
            is_ready,
            blocked_by,
            blocking,
            body: node.body.clone(),
            path,
        }
    }
}

} // verus!
