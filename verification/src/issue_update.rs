//! Editing an issue: scalar fields, labels, notes, and the closing rules.
use crate::models::UsageError;
use crate::store::Issue;
use crate::strs::{remove_strs, sorted_union, strictly_sorted, without_all};
use crate::text::same_str;
use vstd::prelude::*;
use vstd::string::StringExecFns;

verus! {

/// The changes requested for one issue.
#[derive(Debug, Default)]
pub struct UpdateFields {
    pub title: Option<String>,
    pub description: Option<String>,
    pub status: Option<String>,
    pub priority: Option<i32>,
    pub owner: Option<String>,
    pub close_reason: Option<String>,
    pub issue_type: Option<String>,
    pub acceptance_criteria: Option<String>,
    pub defer_until: Option<String>,
    pub add_labels: Vec<String>,
    pub remove_labels: Vec<String>,
    pub add_notes: Vec<String>,
}

/// A requested value, or the current one when none is requested.
pub open spec fn or_keep<T>(new: Option<T>, cur: T) -> T {
    match new {
        Some(x) => x,
        None => cur,
    }
}

/// A requested value for an optional field, or the current one.
pub open spec fn or_keep_opt<T>(new: Option<T>, cur: Option<T>) -> Option<T> {
    match new {
        Some(x) => Some(x),
        None => cur,
    }
}

/// The status name that closes an issue.
pub open spec fn closed_name() -> Seq<char> {
    "closed"@
}

/// Why a close reason is refused, if it is: a reason given while the next
/// status is not `closed`, or none given when the issue becomes closed.
pub open spec fn close_reason_error(current: Seq<char>, next: Seq<char>, has_reason: bool) -> Option<Seq<char>> {
    if has_reason && next != closed_name() {
        Some("close_reason requires status 'closed'"@)
    } else if !has_reason && next == closed_name() && current != closed_name() {
        Some("close_reason is required when closing an issue"@)
    } else {
        None
    }
}

/// Checks the close reason against the status transition.
pub fn validate_close_reason(current_status: &str, status_next: &str, close_reason: &Option<String>) -> (r: Result<
    (),
    UsageError,
>)
    ensures
        r matches Err(e) ==> close_reason_error(current_status@, status_next@, close_reason is Some) == Some(e.0@),
        r is Ok <==> close_reason_error(current_status@, status_next@, close_reason is Some) is None,
{
    proof {
        reveal_strlit("closed");
    }
    let next_closed = same_str(status_next, "closed");
    let closing_transition = next_closed && !same_str(current_status, "closed");
    if close_reason.is_some() && !next_closed {
        return Err(UsageError(String::from_str("close_reason requires status 'closed'")));
    }
    if close_reason.is_none() && closing_transition {
        return Err(UsageError(String::from_str("close_reason is required when closing an issue")));
    }
    Ok(())
}

/// Sets each scalar field that has a requested value; tells whether any had one.
pub fn apply_scalar_updates(
    issue: &mut Issue,
    title: Option<String>,
    description: Option<String>,
    status: Option<String>,
    priority: Option<i32>,
    owner: Option<String>,
    close_reason: Option<String>,
    issue_type: Option<String>,
    acceptance_criteria: Option<String>,
    defer_until: Option<String>,
) -> (changed: bool)
    ensures
        changed == (title is Some || description is Some || status is Some || priority is Some || owner is Some
            || close_reason is Some || issue_type is Some || acceptance_criteria is Some || defer_until is Some),
        *final(issue) == (Issue {
            title: or_keep(title, old(issue).title),
            description: or_keep_opt(description, old(issue).description),
            status: or_keep(status, old(issue).status),
            priority: or_keep(priority, old(issue).priority),
            owner: or_keep_opt(owner, old(issue).owner),
            close_reason: or_keep_opt(close_reason, old(issue).close_reason),
            issue_type: or_keep(issue_type, old(issue).issue_type),
            acceptance_criteria: or_keep_opt(acceptance_criteria, old(issue).acceptance_criteria),
            defer_until: or_keep_opt(defer_until, old(issue).defer_until),
            ..*old(issue)
        }),
{
    let mut changed = false;
    if let Some(t) = title {
        issue.title = t;
        changed = true;
    }
    if let Some(d) = description {
        issue.description = Some(d);
        changed = true;
    }
    if let Some(s) = status {
        issue.status = s;
        changed = true;
    }
    if let Some(p) = priority {
        issue.priority = p;
        changed = true;
    }
    if let Some(o) = owner {
        issue.owner = Some(o);
        changed = true;
    }
    if let Some(reason) = close_reason {
        issue.close_reason = Some(reason);
        changed = true;
    }
    if let Some(it) = issue_type {
        issue.issue_type = it;
        changed = true;
    }
    if let Some(ac) = acceptance_criteria {
        issue.acceptance_criteria = Some(ac);
        changed = true;
    }
    if let Some(du) = defer_until {
        issue.defer_until = Some(du);
        changed = true;
    }
    changed
}

/// `l` holds the labels of `cur` and `add` together, each once, sorted.
pub open spec fn is_label_union(l: Seq<Seq<char>>, cur: Seq<Seq<char>>, add: Seq<Seq<char>>) -> bool {
    &&& strictly_sorted(l)
    &&& forall|x: Seq<char>| #[trigger] l.contains(x) <==> (cur.contains(x) || add.contains(x))
}

/// The labels `fin` and the change flag `changed` result from adding `add`
/// to `cur` (as a sorted union, when `add` is not empty) and then dropping
/// every label in `rm`.
pub open spec fn label_update(
    cur: Seq<Seq<char>>,
    add: Seq<Seq<char>>,
    rm: Seq<Seq<char>>,
    fin: Seq<Seq<char>>,
    changed: bool,
) -> bool {
    exists|l1: Seq<Seq<char>>|
        {
            &&& (add.len() == 0 ==> l1 == cur)
            &&& (add.len() > 0 ==> is_label_union(l1, cur, add))
            &&& fin == #[trigger] without_all(l1, rm)
            &&& changed == (add.len() > 0 || (rm.len() > 0 && without_all(l1, rm).len() != l1.len()))
        }
}

/// Adds labels (keeping the list sorted and free of repeats) and then removes
/// labels; tells whether anything changed.
///
/// When labels are added, the list becomes the sorted union of the current
/// and the added labels; every label listed for removal is then dropped.
pub fn update_labels(issue: &mut Issue, add_labels: Vec<String>, remove_labels: Vec<String>) -> (changed: bool)
    ensures
        label_update(
            old(issue).labels.deep_view(),
            add_labels.deep_view(),
            remove_labels.deep_view(),
            final(issue).labels.deep_view(),
            changed,
        ),
        *final(issue) == (Issue { labels: final(issue).labels, ..*old(issue) }),
{
    let mut changed = false;
    let ghost l1 = issue.labels.deep_view();
    if add_labels.len() > 0 {
        let merged = sorted_union(&issue.labels, &add_labels);
        proof {
            l1 = merged.deep_view();
        }
        issue.labels = merged;
        changed = true;
    }
    if remove_labels.len() > 0 {
        let original_len = issue.labels.len();
        let kept = remove_strs(&issue.labels, &remove_labels);
        issue.labels = kept;
        if issue.labels.len() != original_len {
            changed = true;
        }
    } else {
        proof {
            let e = remove_labels.deep_view();
            assert(e =~= Seq::<Seq<char>>::empty());
            assert(issue.labels.deep_view().filter(|x: Seq<char>| !e.contains(x)) =~= issue.labels.deep_view()) by {
                lemma_filter_all(issue.labels.deep_view(), |x: Seq<char>| !e.contains(x));
            }
        }
    }
    proof {
        assert(issue.labels.deep_view() == without_all(l1, remove_labels.deep_view()));
        assert(issue.labels.deep_view().len() == issue.labels.len());
        assert(changed == (add_labels.len() > 0 || (remove_labels.len() > 0 && without_all(
            l1,
            remove_labels.deep_view(),
        ).len() != l1.len())));
        if add_labels.len() > 0 {
            assert(is_label_union(l1, old(issue).labels.deep_view(), add_labels.deep_view()));
        }
    }
    changed
}

/// Filtering with a predicate that holds everywhere keeps the sequence.
pub proof fn lemma_filter_all<A>(s: Seq<A>, pred: spec_fn(A) -> bool)
    requires
        forall|x: A| #[trigger] pred(x),
    ensures
        s.filter(pred) == s,
    decreases s.len(),
{
    reveal(Seq::filter);
    if s.len() > 0 {
        lemma_filter_all(s.drop_last(), pred);
        assert(s.drop_last().push(s.last()) =~= s);
    }
}


/// The status after an update: the requested one, or the current one.
pub open spec fn next_status(issue: Issue, fields: UpdateFields) -> Seq<char> {
    match fields.status {
        Some(s) => s@,
        None => issue.status@,
    }
}

/// The `closed_at` after an update: set to `now` when the issue ends up
/// closed without one, cleared when it ends up open with one.
pub open spec fn next_closed_at(issue: Issue, next: Seq<char>, now: String) -> Option<String> {
    if next == closed_name() && issue.closed_at is None {
        Some(now)
    } else if next != closed_name() && issue.closed_at is Some {
        None
    } else {
        issue.closed_at
    }
}

/// What an update at time `now` does: `o` is the issue before, `f` after,
/// `r` the result. A refused close leaves the issue as it was; otherwise the
/// scalar fields are set, labels added and removed, notes appended,
/// `closed_at` set or cleared to match the status, and `updated_at` set to
/// `now` when anything changed; the result tells whether anything changed.
pub open spec fn update_outcome(o: Issue, f: Issue, fields: UpdateFields, now: String, r: Result<bool, UsageError>) -> bool {
    let next = next_status(o, fields);
    let refusal = close_reason_error(o.status@, next, fields.close_reason is Some);
    &&& (r is Err <==> refusal is Some)
    &&& (r matches Err(e) ==> refusal == Some(e.0@) && f == o)
    &&& (r matches Ok(changed) ==> exists|lch: bool|
        {
            let scalar = fields.title is Some || fields.description is Some || fields.status is Some
                || fields.priority is Some || fields.owner is Some || fields.close_reason is Some
                || fields.issue_type is Some || fields.acceptance_criteria is Some || fields.defer_until is Some;
            let closed_change = next_closed_at(o, next, now) != o.closed_at;
            &&& #[trigger] label_update(
                o.labels.deep_view(),
                fields.add_labels.deep_view(),
                fields.remove_labels.deep_view(),
                f.labels.deep_view(),
                lch,
            )
            &&& changed == (scalar || lch || fields.add_notes.len() > 0 || closed_change)
            &&& f.title == or_keep(fields.title, o.title)
            &&& f.description == or_keep_opt(fields.description, o.description)
            &&& f.status == or_keep(fields.status, o.status)
            &&& f.priority == or_keep(fields.priority, o.priority)
            &&& f.owner == or_keep_opt(fields.owner, o.owner)
            &&& f.close_reason == or_keep_opt(fields.close_reason, o.close_reason)
            &&& f.issue_type == or_keep(fields.issue_type, o.issue_type)
            &&& f.acceptance_criteria == or_keep_opt(fields.acceptance_criteria, o.acceptance_criteria)
            &&& f.defer_until == or_keep_opt(fields.defer_until, o.defer_until)
            &&& f.notes@ == o.notes@ + fields.add_notes@
            &&& f.closed_at == next_closed_at(o, next, now)
            &&& f.updated_at == (if changed { now } else { o.updated_at })
            &&& f.id == o.id && f.created_at == o.created_at && f.created_by == o.created_by
            &&& f.delete_reason == o.delete_reason && f.deleted_at == o.deleted_at
            &&& f.deleted_by == o.deleted_by && f.dependencies == o.dependencies
            &&& f.original_type == o.original_type
        })
}

/// Applies an update at time `now` (RFC 3339 text).
///
/// The close reason is checked first; on refusal the issue is unchanged.
/// Otherwise the scalar fields are set, labels added and removed, notes
/// appended, `closed_at` set or cleared to match the status, and
/// `updated_at` set to `now` when anything changed; the result tells whether
/// anything changed.
pub fn apply_updates_at(issue: &mut Issue, fields: UpdateFields, now: String) -> (r: Result<bool, UsageError>)
    ensures
        update_outcome(*old(issue), *final(issue), fields, now, r),
{
    let UpdateFields {
        title,
        description,
        status,
        priority,
        owner,
        close_reason,
        issue_type,
        acceptance_criteria,
        defer_until,
        add_labels,
        remove_labels,
        mut add_notes,
    } = fields;
    let status_next = match &status {
        Some(s) => s.clone(),
        None => issue.status.clone(),
    };
    if let Err(e) = validate_close_reason(issue.status.as_str(), status_next.as_str(), &close_reason) {
        return Err(e);
    }
    let mut changed = apply_scalar_updates(
        issue,
        title,
        description,
        status,
        priority,
        owner,
        close_reason,
        issue_type,
        acceptance_criteria,
        defer_until,
    );
    let ghost mid = *issue;
    let lch = update_labels(issue, add_labels, remove_labels);
    if lch {
        changed = true;
    }
    if add_notes.len() > 0 {
        issue.notes.append(&mut add_notes);
        changed = true;
    }
    proof {
        reveal_strlit("closed");
    }
    let next_closed = same_str(status_next.as_str(), "closed");
    if next_closed && issue.closed_at.is_none() {
        issue.closed_at = Some(now.clone());
        changed = true;
    } else if !next_closed && issue.closed_at.is_some() {
        issue.closed_at = None;
        changed = true;
    }
    if changed {
        issue.updated_at = now;
    }
    proof {
        let o = *old(issue);
        assert(mid.labels == o.labels);
        assert(label_update(
            o.labels.deep_view(),
            add_labels.deep_view(),
            remove_labels.deep_view(),
            issue.labels.deep_view(),
            lch,
        ));
    }
    Ok(changed)
}

/// Applies an update at the current local time (see [`apply_updates_at`]);
/// what holds is what [`apply_updates_at`] states for some `now`.
pub fn apply_updates(issue: &mut Issue, fields: UpdateFields) -> (r: Result<bool, UsageError>)
    ensures
        exists|now: String| #[trigger] update_outcome(*old(issue), *final(issue), fields, now, r),
{
    let now = crate::clock::local_now_rfc3339();
    apply_updates_at(issue, fields, now)
}
} // verus!
