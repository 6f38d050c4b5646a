//! `pebble update`: the changes made to one task, and the reverse
//! dependency edits on the tasks it blocks.
use crate::clock::current_task_time;
use crate::graph::{distinct_ids, has_id, id_of, TaskGraph};
use crate::models::{CommandError, FrontmatterView, NodeView, Priority, TaskNode, TaskStatus, Timestamp};
use crate::strs::{add_unique, push_all_unique, remove_strs, without_all};
use crate::text::{all_space, contains_str, is_all_space, same_str, trim_end, trim_end_spec};
use vstd::prelude::*;
use vstd::string::StringExecFns;

verus! {

/// The changes `pebble update` makes to the task itself.
pub struct UpdateMutations {
    pub title: Option<String>,
    pub status: Option<TaskStatus>,
    pub priority: Option<Priority>,
    pub clear_priority: bool,
    pub body: Option<String>,
    pub append_body: Option<String>,
    pub add_tags: Vec<String>,
    pub remove_tags: Vec<String>,
    pub add_needs: Vec<String>,
    pub remove_needs: Vec<String>,
}

/// `resolved_at` after a status change at `now`: set when the task becomes
/// terminal, cleared when it is reopened, kept otherwise.
pub open spec fn resolved_after(
    old_status: TaskStatus,
    new_status: Option<TaskStatus>,
    old_resolved: Option<Timestamp>,
    now: Timestamp,
) -> Option<Timestamp> {
    match new_status {
        None => old_resolved,
        Some(ns) => if !(old_status is Closed) && ns is Closed {
            Some(now)
        } else if old_status is Closed && !(ns is Closed) {
            None
        } else {
            old_resolved
        },
    }
}

/// The body after an update: replaced, or appended to (after a blank line,
/// once trailing white space is dropped; a body of only white space is
/// replaced), or kept.
pub open spec fn body_after(old_body: Seq<char>, body: Option<String>, append: Option<String>) -> Seq<char> {
    match body {
        Some(b) => b@,
        None => match append {
            Some(a) => if all_space(old_body) {
                a@
            } else {
                trim_end_spec(old_body) + "\n\n"@ + a@
            },
            None => old_body,
        },
    }
}

/// The priority after an update: cleared when asked, else the new one, else kept.
pub open spec fn priority_after(old: Option<Priority>, new: Option<Priority>, clear: bool) -> Option<Priority> {
    if clear {
        None
    } else {
        match new {
            Some(p) => Some(p),
            None => old,
        }
    }
}

/// What an update at time `now` does to a task (`before`, then `after`):
/// title, status and priority as asked (priority cleared when asked),
/// `resolved_at` set or cleared by the status change, `modified_at` set to
/// `now`, tags and needs added (each once) and removed, the body replaced or
/// appended to; ID, creation time, unknown keys and path are kept.
pub open spec fn mutated(before: TaskNode, after: TaskNode, m: UpdateMutations, now: Timestamp) -> bool {
    let o = before.frontmatter;
    let f = after.frontmatter;
    &&& f.id@ == o.id@
    &&& f.title@ == (match m.title {
        Some(t) => t@,
        None => o.title@,
    })
    &&& f.status == (match m.status {
        Some(s) => s,
        None => o.status,
    })
    &&& f.resolved_at == resolved_after(o.status, m.status, o.resolved_at, now)
    &&& f.priority == priority_after(o.priority, m.priority, m.clear_priority)
    &&& f.modified_at == Some(now)
    &&& f.created_at == o.created_at
    &&& f.tags.deep_view() == without_all(
        add_unique(o.tags.deep_view(), m.add_tags.deep_view()),
        m.remove_tags.deep_view(),
    )
    &&& f.needs.deep_view() == without_all(
        add_unique(o.needs.deep_view(), m.add_needs.deep_view()),
        m.remove_needs.deep_view(),
    )
    &&& f.extra == o.extra
    &&& after.body@ == body_after(before.body@, m.body, m.append_body)
    &&& after.path == before.path
}

/// Applies the requested changes to a task at time `now`.
pub fn apply_update_mutations_at(node: &mut TaskNode, mutations: UpdateMutations, now: Timestamp)
    ensures
        mutated(*old(node), *final(node), mutations, now),
{
    let UpdateMutations {
        title,
        status,
        priority,
        clear_priority,
        body,
        append_body,
        add_tags,
        remove_tags,
        add_needs,
        remove_needs,
    } = mutations;
    if let Some(t) = title {
        node.frontmatter.title = t;
    }
    if let Some(new_status) = status {
        if !node.frontmatter.status.is_closed() && new_status.is_closed() {
            node.frontmatter.resolved_at = Some(now);
        } else if node.frontmatter.status.is_closed() && !new_status.is_closed() {
            node.frontmatter.resolved_at = None;
        }
        node.frontmatter.status = new_status;
    }
    if let Some(p) = priority {
        node.frontmatter.priority = Some(p);
    }
    if clear_priority {
        node.frontmatter.priority = None;
    }
    node.frontmatter.modified_at = Some(now);
    push_all_unique(&mut node.frontmatter.tags, add_tags);
    let tags = remove_strs(&node.frontmatter.tags, &remove_tags);
    node.frontmatter.tags = tags;
    push_all_unique(&mut node.frontmatter.needs, add_needs);
    let needs = remove_strs(&node.frontmatter.needs, &remove_needs);
    node.frontmatter.needs = needs;
    if let Some(b) = body {
        node.body = b;
    } else if let Some(a) = append_body {
        if is_all_space(node.body.as_str()) {
            node.body = a;
        } else {
            let mut nb = trim_end(node.body.as_str());
            nb.append("\n\n");
            nb.append(a.as_str());
            node.body = nb;
        }
    }
}

/// Applies the requested changes to a task at the current time; what holds
/// is what [`apply_update_mutations_at`] states for the instant read.
pub fn apply_update_mutations(node: &mut TaskNode, mutations: UpdateMutations) -> (now: Timestamp)
    ensures
        mutated(*old(node), *final(node), mutations, now),
{
    let now = current_task_time();
    apply_update_mutations_at(node, mutations, now);
    now
}


/// A task's needs after the reverse edits for source `src`: `src` added
/// (when asked and absent), then every `src` removed (when asked).
pub open spec fn reverse_needs(needs: Seq<Seq<char>>, src: Seq<char>, add: bool, rm: bool) -> Seq<Seq<char>> {
    let n1 = if add && !needs.contains(src) {
        needs.push(src)
    } else {
        needs
    };
    if rm {
        without_all(n1, seq![src])
    } else {
        n1
    }
}

/// Whether the reverse edits change a task's needs: the addition happened,
/// or the removal dropped something.
pub open spec fn reverse_changed(needs: Seq<Seq<char>>, src: Seq<char>, add: bool, rm: bool) -> bool {
    let n1 = if add && !needs.contains(src) {
        needs.push(src)
    } else {
        needs
    };
    (add && !needs.contains(src)) || (rm && without_all(n1, seq![src]).len() != n1.len())
}

/// A target that names neither the source task nor any task of the graph.
pub open spec fn missing_target(g: Seq<TaskNode>, src: Seq<char>, t: Seq<char>) -> bool {
    t != src && !has_id(g, t)
}

/// Position `k` holds the first missing target of the list.
pub open spec fn first_missing_at(g: Seq<TaskNode>, src: Seq<char>, ts: Seq<Seq<char>>, k: int) -> bool {
    0 <= k < ts.len() && missing_target(g, src, ts[k]) && forall|j: int| 0 <= j < k ==> !missing_target(g, src, #[trigger] ts[j])
}

/// The message for a missing target of `--blocks` or `--remove-blocks`.
pub open spec fn missing_block_message(t: Seq<char>, flag: Seq<char>) -> Seq<char> {
    "Task '"@ + t + "' not found for "@ + flag
}

/// The view of a node whose needs became `needs` and whose modification time became `modified`.
pub open spec fn with_needs(v: NodeView, needs: Seq<Seq<char>>, modified: Option<Timestamp>) -> NodeView {
    NodeView { fm: FrontmatterView { needs: needs, modified_at: modified, ..v.fm }, ..v }
}

/// The first missing target of a list, if any, as its position.
fn first_missing(graph: &TaskGraph, src: &str, targets: &Vec<String>) -> (r: Option<usize>)
    ensures
        match r {
            Some(k) => k < targets.len() && missing_target(graph.nodes@, src@, targets@[k as int]@) && forall|j: int|
                0 <= j < k ==> !missing_target(graph.nodes@, src@, #[trigger] targets@[j]@),
            None => forall|j: int| 0 <= j < targets.len() ==> !missing_target(graph.nodes@, src@, #[trigger] targets@[j]@),
        },
{
    let mut k: usize = 0;
    while k < targets.len()
        invariant
            k <= targets.len(),
            forall|j: int| 0 <= j < k ==> !missing_target(graph.nodes@, src@, #[trigger] targets@[j]@),
        decreases targets.len() - k,
    {
        if !same_str(targets[k].as_str(), src) && !graph.contains_key(targets[k].as_str()) {
            return Some(k);
        }
        k = k + 1;
    }
    None
}

/// The reverse edits of a source task with the targets `adds` and `rms`
/// turn the graph's nodes `g` into `g1` and the source node `s0` into `s1`,
/// and `changed` lists, in order, the positions whose needs changed: each
/// task listed in `adds` gets the source as a need (unless it has it), each
/// task listed in `rms` loses it, a listed target equal to the source edits
/// the source's own needs, and changed tasks get `modified_at = now`.
pub open spec fn reverse_applied(
    g: Seq<TaskNode>,
    g1: Seq<TaskNode>,
    s0: TaskNode,
    s1: TaskNode,
    adds: Seq<Seq<char>>,
    rms: Seq<Seq<char>>,
    now: Timestamp,
    changed: Seq<usize>,
) -> bool {
    let src = s0.frontmatter.id@;
    &&& g1.len() == g.len()
    &&& s1@ == with_needs(
        s0@,
        reverse_needs(s0.frontmatter.needs.deep_view(), src, adds.contains(src), rms.contains(src)),
        s0.frontmatter.modified_at,
    )
    &&& forall|i: int|
        0 <= i < g.len() ==> {
            let id = id_of(g[i]);
            let a = id != src && adds.contains(id);
            let d = id != src && rms.contains(id);
            let ch = reverse_changed(g[i].frontmatter.needs.deep_view(), src, a, d);
            &&& #[trigger] g1[i]@ == with_needs(
                g[i]@,
                reverse_needs(g[i].frontmatter.needs.deep_view(), src, a, d),
                if ch {
                    Some(now)
                } else {
                    g[i].frontmatter.modified_at
                },
            )
            &&& (changed.contains(i as usize) <==> ch)
        }
    &&& forall|x: int, y: int| 0 <= x < y < changed.len() ==> changed[x] < changed[y]
}

/// The first `k` strings of a list.
fn prefix_strs(v: &Vec<String>, k: usize) -> (r: Vec<String>)
    requires
        k <= v.len(),
    ensures
        r.deep_view() == v.deep_view().take(k as int),
{
    let mut r: Vec<String> = Vec::new();
    let mut i: usize = 0;
    while i < k
        invariant
            i <= k <= v.len(),
            r.deep_view() == v.deep_view().take(i as int),
        decreases k - i,
    {
        let ghost before = r.deep_view();
        let x = v[i].clone();
        r.push(x);
        assert(r.deep_view() =~= before.push(v@[i as int]@));
        assert(v.deep_view().take(i + 1) =~= v.deep_view().take(i as int).push(v@[i as int]@));
        i = i + 1;
    }
    r
}

/// Applies the reverse edits of the source task with the targets `adds` and
/// `rms` (see [`reverse_applied`]); targets that name no task are passed over.
fn apply_reverse_edits(
    graph: &mut TaskGraph,
    source_node: &mut TaskNode,
    add_targets: &Vec<String>,
    remove_targets: &Vec<String>,
    now: Timestamp,
) -> (changed: Vec<usize>)
    requires
        old(graph).wf(),
    ensures
        final(graph).wf(),
        final(graph).duplicate_ids == old(graph).duplicate_ids,
        reverse_applied(
            old(graph).nodes@,
            final(graph).nodes@,
            *old(source_node),
            *final(source_node),
            add_targets.deep_view(),
            remove_targets.deep_view(),
            now,
            changed@,
        ),
{
    let src = source_node.frontmatter.id.clone();
    let mut rm_src: Vec<String> = Vec::new();
    rm_src.push(src.clone());
    assert(rm_src.deep_view() =~= seq![src@]);
    let self_add = contains_str(add_targets, src.as_str());
    let self_rm = contains_str(remove_targets, src.as_str());
    let had = contains_str(&source_node.frontmatter.needs, src.as_str());
    if self_add && !had {
        let ghost before = source_node.frontmatter.needs.deep_view();
        source_node.frontmatter.needs.push(src.clone());
        assert(source_node.frontmatter.needs.deep_view() =~= before.push(src@));
    }
    if self_rm {
        let kept = remove_strs(&source_node.frontmatter.needs, &rm_src);
        source_node.frontmatter.needs = kept;
    }
    let ghost g = graph.nodes@;
    let n = graph.nodes.len();
    let mut changed: Vec<usize> = Vec::new();
    let mut i: usize = 0;
    while i < n
        invariant
            n == g.len(),
            graph.nodes@.len() == n,
            i <= n,
            rm_src.deep_view() == seq![src@],
            src@ == old(source_node).frontmatter.id@,
            g == old(graph).nodes@,
            graph.duplicate_ids == old(graph).duplicate_ids,
            distinct_ids(g),
            forall|j: int| i <= j < n ==> graph.nodes@[j] == g[j],
            forall|j: int| 0 <= j < n ==> #[trigger] id_of(graph.nodes@[j]) == id_of(g[j]),
            forall|j: int|
                0 <= j < i ==> {
                    let id = id_of(g[j]);
                    let a = id != src@ && add_targets.deep_view().contains(id);
                    let d = id != src@ && remove_targets.deep_view().contains(id);
                    let ch = reverse_changed(g[j].frontmatter.needs.deep_view(), src@, a, d);
                    &&& #[trigger] graph.nodes@[j]@ == with_needs(
                        g[j]@,
                        reverse_needs(g[j].frontmatter.needs.deep_view(), src@, a, d),
                        if ch {
                            Some(now)
                        } else {
                            g[j].frontmatter.modified_at
                        },
                    )
                    &&& (changed@.contains(j as usize) <==> ch)
                },
            forall|x: int| 0 <= x < changed.len() ==> (#[trigger] changed@[x]) < i,
            forall|x: int, y: int| 0 <= x < y < changed.len() ==> changed@[x] < changed@[y],
        decreases n - i,
    {
        let id = graph.nodes[i].frontmatter.id.as_str();
        let not_self = !same_str(id, src.as_str());
        let a = not_self && contains_str(add_targets, id);
        let d = not_self && contains_str(remove_targets, id);
        let ghost ov = g[i as int];
        let ghost ch = reverse_changed(ov.frontmatter.needs.deep_view(), src@, a, d);
        let ghost old_changed = changed@;
        if a || d {
            let mut nd = graph.nodes[i].clone();
            let present = contains_str(&nd.frontmatter.needs, src.as_str());
            let mut touched = false;
            if a && !present {
                let ghost before = nd.frontmatter.needs.deep_view();
                nd.frontmatter.needs.push(src.clone());
                assert(nd.frontmatter.needs.deep_view() =~= before.push(src@));
                touched = true;
            }
            if d {
                let before_len = nd.frontmatter.needs.len();
                let kept = remove_strs(&nd.frontmatter.needs, &rm_src);
                nd.frontmatter.needs = kept;
                if nd.frontmatter.needs.len() != before_len {
                    touched = true;
                }
            }
            assert(touched == ch);
            if touched {
                nd.frontmatter.modified_at = Some(now);
                changed.push(i);
            }
            assert(nd@ == with_needs(
                ov@,
                reverse_needs(ov.frontmatter.needs.deep_view(), src@, a, d),
                if ch {
                    Some(now)
                } else {
                    ov.frontmatter.modified_at
                },
            ));
            graph.nodes.set(i, nd);
        } else {
            assert(ov.frontmatter.needs.deep_view() =~= ov.frontmatter.needs.deep_view());
            assert(graph.nodes@[i as int]@ =~~= with_needs(
                ov@,
                reverse_needs(ov.frontmatter.needs.deep_view(), src@, a, d),
                ov.frontmatter.modified_at,
            ));
        }
        proof {
            assert forall|x: usize| #[trigger] changed@.contains(x) <==> (old_changed.contains(x) || (x == i && ch)) by {
                crate::sorting::lemma_push_contains(old_changed, i, x);
            }
        }
        i = i + 1;
    }
    proof {
        assert forall|x: int, y: int|
            0 <= x < graph.nodes@.len() && 0 <= y < graph.nodes@.len() && x != y implies #[trigger] id_of(
            graph.nodes@[x],
        ) != #[trigger] id_of(graph.nodes@[y]) by {
            assert(id_of(g[x]) != id_of(g[y]));
        }
    }
    changed
}

/// Applies reverse dependency edits for the task `source` at time `now`, as
/// [`reverse_applied`] states, and returns the positions whose needs changed.
///
/// A target that names no task (other than the source) is an error. The
/// targets are taken in turn, those of `add_targets` first: the edits of the
/// targets before the first missing one are made, and their changed
/// positions come back with the error.
pub fn apply_reverse_update(
    graph: &mut TaskGraph,
    source_node: &mut TaskNode,
    add_targets: &Vec<String>,
    remove_targets: &Vec<String>,
    now: Timestamp,
) -> (r: Result<Vec<usize>, (Vec<usize>, CommandError)>)
    requires
        old(graph).wf(),
    ensures
        final(graph).wf(),
        final(graph).duplicate_ids == old(graph).duplicate_ids,
        ({
            let g = old(graph).nodes@;
            let src = old(source_node).frontmatter.id@;
            let adds = add_targets.deep_view();
            let rms = remove_targets.deep_view();
            let bad_add = exists|k: int| 0 <= k < add_targets.len() && missing_target(g, src, #[trigger] add_targets@[k]@);
            let bad_rm = exists|k: int| 0 <= k < remove_targets.len() && missing_target(g, src, #[trigger] remove_targets@[k]@);
            &&& (r is Err <==> bad_add || bad_rm)
            &&& (r matches Ok(changed) ==> reverse_applied(
                g,
                final(graph).nodes@,
                *old(source_node),
                *final(source_node),
                adds,
                rms,
                now,
                changed@,
            ))
            &&& (r matches Err((changed, e)) ==> if bad_add {
                exists|k: int|
                    #[trigger] first_missing_at(g, src, adds, k) && (e matches CommandError::Runtime(m) && m@
                        == missing_block_message(add_targets@[k]@, "--blocks"@)) && reverse_applied(
                        g,
                        final(graph).nodes@,
                        *old(source_node),
                        *final(source_node),
                        adds.take(k),
                        Seq::empty(),
                        now,
                        changed@,
                    )
            } else {
                exists|k: int|
                    #[trigger] first_missing_at(g, src, rms, k) && (e matches CommandError::Runtime(m) && m@
                        == missing_block_message(remove_targets@[k]@, "--remove-blocks"@)) && reverse_applied(
                        g,
                        final(graph).nodes@,
                        *old(source_node),
                        *final(source_node),
                        adds,
                        rms.take(k),
                        now,
                        changed@,
                    )
            })
        }),
{
    let src = source_node.frontmatter.id.clone();
    if let Some(k) = first_missing(graph, src.as_str(), add_targets) {
        let mut m = String::from_str("Task '");
        m.append(add_targets[k].as_str());
        m.append("' not found for ");
        m.append("--blocks");
        proof {
            assert(first_missing_at(graph.nodes@, src@, add_targets.deep_view(), k as int));
        }
        let done = prefix_strs(add_targets, k);
        let none: Vec<String> = Vec::new();
        assert(none.deep_view() =~= Seq::<Seq<char>>::empty());
        let changed = apply_reverse_edits(graph, source_node, &done, &none, now);
        return Err((changed, CommandError::Runtime(m)));
    }
    if let Some(k) = first_missing(graph, src.as_str(), remove_targets) {
        let mut m = String::from_str("Task '");
        m.append(remove_targets[k].as_str());
        m.append("' not found for ");
        m.append("--remove-blocks");
        proof {
            assert(first_missing_at(graph.nodes@, src@, remove_targets.deep_view(), k as int));
            assert forall|j: int| 0 <= j < add_targets.len() implies !missing_target(graph.nodes@, src@, #[trigger] add_targets@[j]@) by {}
        }
        let done = prefix_strs(remove_targets, k);
        let changed = apply_reverse_edits(graph, source_node, add_targets, &done, now);
        return Err((changed, CommandError::Runtime(m)));
    }
    Ok(apply_reverse_edits(graph, source_node, add_targets, remove_targets, now))
}

/// An entry is in a list after adding entries (each unless already there)
/// exactly when it was in the list or among those added.
proof fn lemma_add_unique_contains(cur: Seq<Seq<char>>, add: Seq<Seq<char>>, x: Seq<char>)
    ensures
        add_unique(cur, add).contains(x) <==> cur.contains(x) || add.contains(x),
    decreases add.len(),
{
    if add.len() > 0 {
        lemma_add_unique_contains(cur, add.drop_last(), x);
        let r = add_unique(cur, add.drop_last());
        crate::sorting::lemma_push_contains(r, add.last(), x);
        if add.drop_last().contains(x) {
            let k = choose|k: int| 0 <= k < add.drop_last().len() && add.drop_last()[k] == x;
            assert(add[k] == x);
        }
        if add.contains(x) && x != add.last() {
            let k = choose|k: int| 0 <= k < add.len() && add[k] == x;
            assert(add.drop_last()[k] == x);
        }
    }
}

/// An entry is in a list after adding `add` and then removing `rm` exactly
/// when it was in the list or added, and is not removed.
proof fn lemma_edit_contains(cur: Seq<Seq<char>>, add: Seq<Seq<char>>, rm: Seq<Seq<char>>, x: Seq<char>)
    ensures
        without_all(add_unique(cur, add), rm).contains(x) <==> (cur.contains(x) || add.contains(x)) && !rm.contains(x),
{
    let a = add_unique(cur, add);
    lemma_add_unique_contains(cur, add, x);
    let pred = |y: Seq<char>| !rm.contains(y);
    if a.contains(x) && !rm.contains(x) {
        let k = choose|k: int| 0 <= k < a.len() && a[k] == x;
        a.lemma_filter_contains(pred, k);
    }
    if without_all(a, rm).contains(x) {
        let k = choose|k: int| 0 <= k < without_all(a, rm).len() && without_all(a, rm)[k] == x;
        a.lemma_filter_pred(pred, k);
        a.lemma_filter_contains_rev(pred, x);
    }
}

/// What `update` does to a task, field by field: a given title, status or
/// priority replaces the old one (clearing the priority wins), and the
/// rest stay; closing an open task resolves it now, reopening a closed one
/// unresolves it; a tag or need is there afterwards exactly when it was
/// there or added, and is not removed; a new body replaces the old one, an
/// appended text ends the body; the task is modified now, and keeps its ID
/// and creation time.
pub proof fn lemma_update_fields(before: TaskNode, after: TaskNode, m: UpdateMutations, now: Timestamp)
    requires
        mutated(before, after, m, now),
    ensures
        (m.title matches Some(t) ==> after.frontmatter.title@ == t@),
        m.title is None ==> after.frontmatter.title@ == before.frontmatter.title@,
        (m.status matches Some(st) ==> after.frontmatter.status == st),
        m.status is None ==> after.frontmatter.status == before.frontmatter.status,
        (before.frontmatter.status is Live && (m.status matches Some(st) && st is Closed)) ==> after.frontmatter.resolved_at
            == Some(now),
        (before.frontmatter.status is Closed && (m.status matches Some(st) && st is Live)) ==> after.frontmatter.resolved_at
            is None,
        m.status is None ==> after.frontmatter.resolved_at == before.frontmatter.resolved_at,
        m.clear_priority ==> after.frontmatter.priority is None,
        (!m.clear_priority && (m.priority matches Some(p))) ==> after.frontmatter.priority == m.priority,
        !m.clear_priority && m.priority is None ==> after.frontmatter.priority == before.frontmatter.priority,
        forall|x: Seq<char>|
            #[trigger] after.frontmatter.tags.deep_view().contains(x) <==> (before.frontmatter.tags.deep_view().contains(x)
                || m.add_tags.deep_view().contains(x)) && !m.remove_tags.deep_view().contains(x),
        forall|x: Seq<char>|
            #[trigger] after.frontmatter.needs.deep_view().contains(x) <==> (before.frontmatter.needs.deep_view().contains(
                x,
            ) || m.add_needs.deep_view().contains(x)) && !m.remove_needs.deep_view().contains(x),
        (m.body matches Some(b) ==> after.body@ == b@),
        m.body is None ==> (m.append_body matches Some(a) ==> after.body@.len() >= a@.len()
            && after.body@.skip(after.body@.len() - a@.len()) == a@),
        m.body is None && m.append_body is None ==> after.body@ == before.body@,
        after.frontmatter.modified_at == Some(now),
        after.frontmatter.id@ == before.frontmatter.id@,
        after.frontmatter.created_at == before.frontmatter.created_at,
{
    assert forall|x: Seq<char>|
        #[trigger] after.frontmatter.tags.deep_view().contains(x) <==> (before.frontmatter.tags.deep_view().contains(x)
            || m.add_tags.deep_view().contains(x)) && !m.remove_tags.deep_view().contains(x) by {
        lemma_edit_contains(before.frontmatter.tags.deep_view(), m.add_tags.deep_view(), m.remove_tags.deep_view(), x);
    }
    assert forall|x: Seq<char>|
        #[trigger] after.frontmatter.needs.deep_view().contains(x) <==> (before.frontmatter.needs.deep_view().contains(x)
            || m.add_needs.deep_view().contains(x)) && !m.remove_needs.deep_view().contains(x) by {
        lemma_edit_contains(before.frontmatter.needs.deep_view(), m.add_needs.deep_view(), m.remove_needs.deep_view(), x);
    }
    if m.body is None {
        if let Some(a) = m.append_body {
            let ob = before.body@;
            if all_space(ob) {
                assert(after.body@.skip(0) =~= a@);
            } else {
                let pre = trim_end_spec(ob) + "\n\n"@;
                assert(after.body@ == pre + a@);
                assert((pre + a@).skip(pre.len() as int) =~= a@);
            }
        }
    }
}
} // verus!
