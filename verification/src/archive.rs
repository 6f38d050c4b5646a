//! `pebble archive`: which closed tasks have been resolved long enough to be
//! moved into `archive/`, and the names they are moved under.
use crate::clock::{current_task_time, duration_since, signed_duration_since};
use crate::graph::TaskGraph;
use crate::models::{TaskNode, Timestamp};
use crate::text::{nat_decimal, push_decimal};
use vstd::prelude::*;
use vstd::string::StringExecFns;

verus! {

/// The largest archive threshold, in days, that `chrono`'s `Duration::days`
/// accepts (its spans are bounded by `i64::MAX` milliseconds); it panics on
/// larger ones.
pub const MAX_THRESHOLD_DAYS: i64 = 106751991167;

/// The span from `since` to `now` in nanoseconds as `chrono` measures it:
/// `num_seconds() * 10^9 + subsec_nanos()`, which `chrono` documents as the
/// span's total number of nanoseconds; `None` when `chrono` cannot
/// represent an instant.
pub open spec fn span_nanos(now: Timestamp, since: Timestamp) -> Option<int> {
    match duration_since(now.secs, now.nanos, since.secs, since.nanos) {
        Some((s, n)) => Some(s * 1_000_000_000 + n),
        None => None,
    }
}

/// A task is due for archiving at `now`: it is closed, and the span since
/// it was resolved is at least `days` whole days.
pub open spec fn archive_due_spec(n: TaskNode, now: Timestamp, days: int) -> bool {
    &&& n.frontmatter.status is Closed
    &&& match n.frontmatter.resolved_at {
        Some(r) => match span_nanos(now, r) {
            Some(e) => e >= days * 86_400_000_000_000,
            None => false,
        },
        None => false,
    }
}

/// Whether a task is due for archiving at `now` with a threshold of
/// `threshold_days` days.
pub fn archive_due(node: &TaskNode, now: Timestamp, threshold_days: i64) -> (r: bool)
    requires
        -MAX_THRESHOLD_DAYS <= threshold_days <= MAX_THRESHOLD_DAYS,
    ensures
        r == archive_due_spec(*node, now, threshold_days as int),
{
    if !node.frontmatter.status.is_closed() {
        return false;
    }
    match node.frontmatter.resolved_at {
        None => false,
        Some(since) => match signed_duration_since(now, since) {
            None => false,
            Some((secs, nanos)) => {
                assert(-10_000_000_000_000_000_000_000_000_000 <= (secs as i128) * 1_000_000_000
                    <= 10_000_000_000_000_000_000_000_000_000) by (nonlinear_arith)
                    requires
                        i64::MIN <= secs <= i64::MAX,
                ;
                let elapsed: i128 = (secs as i128) * 1_000_000_000 + nanos as i128;
                assert(-10_000_000_000_000_000_000_000_000 <= (threshold_days as i128) * 86_400_000_000_000
                    <= 10_000_000_000_000_000_000_000_000) by (nonlinear_arith)
                    requires
                        -MAX_THRESHOLD_DAYS <= threshold_days <= MAX_THRESHOLD_DAYS,
                ;
                let limit: i128 = (threshold_days as i128) * 86_400_000_000_000;
                elapsed >= limit
            },
        },
    }
}

/// The positions of the tasks due for archiving, in increasing order.
pub fn archive_candidates(graph: &TaskGraph, now: Timestamp, threshold_days: i64) -> (r: Vec<usize>)
    requires
        -MAX_THRESHOLD_DAYS <= threshold_days <= MAX_THRESHOLD_DAYS,
    ensures
        forall|a: int, b: int| 0 <= a < b < r@.len() ==> r@[a] < r@[b],
        forall|k: int| 0 <= k < r@.len() ==> #[trigger] r@[k] < graph.nodes@.len(),
        forall|i: usize|
            i < graph.nodes@.len() ==> (#[trigger] r@.contains(i) <==> archive_due_spec(
                graph.nodes@[i as int],
                now,
                threshold_days as int,
            )),
{
    let mut r: Vec<usize> = Vec::new();
    let mut i: usize = 0;
    while i < graph.nodes.len()
        invariant
            i <= graph.nodes.len(),
            -MAX_THRESHOLD_DAYS <= threshold_days <= MAX_THRESHOLD_DAYS,
            forall|a: int, b: int| 0 <= a < b < r@.len() ==> r@[a] < r@[b],
            forall|k: int| 0 <= k < r@.len() ==> #[trigger] r@[k] < i,
            forall|j: usize|
                j < i ==> (#[trigger] r@.contains(j) <==> archive_due_spec(graph.nodes@[j as int], now, threshold_days as int)),
        decreases graph.nodes.len() - i,
    {
        let ghost before = r@;
        if archive_due(&graph.nodes[i], now, threshold_days) {
            r.push(i);
            proof {
                assert forall|j: usize| j < i + 1 implies (#[trigger] r@.contains(j) <==> archive_due_spec(
                    graph.nodes@[j as int],
                    now,
                    threshold_days as int,
                )) by {
                    crate::sorting::lemma_push_contains(before, i, j);
                }
            }
        } else {
            proof {
                assert forall|j: usize| j < i + 1 implies (#[trigger] r@.contains(j) <==> archive_due_spec(
                    graph.nodes@[j as int],
                    now,
                    threshold_days as int,
                )) by {
                    if r@.contains(j) {
                        let k = choose|k: int| 0 <= k < r@.len() && r@[k] == j;
                    }
                }
            }
        }
        i = i + 1;
    }
    r
}

/// The positions of the tasks due for archiving at the current time, and
/// that time; what holds is what [`archive_candidates`] states for it.
pub fn archive_candidates_now(graph: &TaskGraph, threshold_days: i64) -> (r: (Vec<usize>, Timestamp))
    requires
        -MAX_THRESHOLD_DAYS <= threshold_days <= MAX_THRESHOLD_DAYS,
    ensures
        forall|a: int, b: int| 0 <= a < b < r.0@.len() ==> r.0@[a] < r.0@[b],
        forall|k: int| 0 <= k < r.0@.len() ==> #[trigger] r.0@[k] < graph.nodes@.len(),
        forall|i: usize|
            i < graph.nodes@.len() ==> (#[trigger] r.0@.contains(i) <==> archive_due_spec(
                graph.nodes@[i as int],
                r.1,
                threshold_days as int,
            )),
{
    let now = current_task_time();
    (archive_candidates(graph, now, threshold_days), now)
}

/// The file name tried for an archived task after its own name is taken:
/// `<stem>-<counter>`, then `.<extension>` when there is one.
pub open spec fn archive_file_name_spec(stem: Seq<char>, extension: Seq<char>, counter: nat) -> Seq<char> {
    if extension.len() == 0 {
        stem + "-"@ + nat_decimal(counter)
    } else {
        stem + "-"@ + nat_decimal(counter) + "."@ + extension
    }
}

/// The file name tried for an archived task after its own name is taken.
pub fn archive_file_name(stem: &str, extension: &str, counter: u64) -> (r: String)
    ensures
        r@ == archive_file_name_spec(stem@, extension@, counter as nat),
{
    let mut r = String::from_str(stem);
    r.append("-");
    push_decimal(&mut r, counter);
    if !extension.is_empty() {
        r.append(".");
        r.append(extension);
    }
    r
}


/// Which tasks `archive` moves: never an open task or one without a
/// resolution time; a closed task resolved exactly the threshold ago or
/// longer is due, one resolved less long ago is not (spans as `chrono`
/// measures them, in whole seconds and nanoseconds).
pub proof fn lemma_archive_due_rules(n: TaskNode, now: Timestamp, days: int)
    ensures
        n.frontmatter.status is Live ==> !archive_due_spec(n, now, days),
        n.frontmatter.resolved_at is None ==> !archive_due_spec(n, now, days),
        forall|r: Timestamp|
            n.frontmatter.status is Closed && n.frontmatter.resolved_at == Some(r) ==> match #[trigger] duration_since(
                now.secs,
                now.nanos,
                r.secs,
                r.nanos,
            ) {
                Some((secs, nanos)) => (secs == days * 86_400 && nanos == 0 ==> archive_due_spec(n, now, days)) && (
                secs < days * 86_400 && nanos <= 0 ==> !archive_due_spec(n, now, days)),
                None => !archive_due_spec(n, now, days),
            },
{
    assert forall|r: Timestamp|
        n.frontmatter.status is Closed && n.frontmatter.resolved_at == Some(r) implies match #[trigger] duration_since(
            now.secs,
            now.nanos,
            r.secs,
            r.nanos,
        ) {
            Some((secs, nanos)) => (secs == days * 86_400 && nanos == 0 ==> archive_due_spec(n, now, days)) && (secs
                < days * 86_400 && nanos <= 0 ==> !archive_due_spec(n, now, days)),
            None => !archive_due_spec(n, now, days),
        } by {
        if let Some((secs, nanos)) = duration_since(now.secs, now.nanos, r.secs, r.nanos) {
            if secs < days * 86_400 && nanos <= 0 {
                assert(secs * 1_000_000_000 + nanos < days * 86_400_000_000_000) by (nonlinear_arith)
                    requires
                        secs < days * 86_400,
                        nanos <= 0,
                ;
            }
            if secs == days * 86_400 && nanos == 0 {
                assert(secs * 1_000_000_000 + nanos == days * 86_400_000_000_000) by (nonlinear_arith)
                    requires
                        secs == days * 86_400,
                        nanos == 0,
                ;
            }
        }
    }
}
} // verus!
