//! `pebble check`: the health findings of a task graph.
use crate::graph::{dep_edge, distinct_ids, dependents_lists, deref_nodes, has_id, id_of, needs_id, refs_of, TaskGraph};
use crate::clock::current_task_time;
use crate::components::component_positions;
use crate::models::{FrontmatterView, NodeView, TaskNode, Timestamp};
use crate::ordering::{
    lemma_reaches_facts, members_of, reach_facts, reach_matrix, reaches, rep_flags, rep_mask, same_scc, scc_members,
};
use crate::sorting::{positions, same_elements, sort_by_less, sorted_by, strict_total_on};
use crate::strs::{join_strs, joined, lemma_sorted_unique, sorted_union, strictly_sorted};
use crate::task_view::{shown_path, strip_path_prefix};
use crate::text::{contains_str, flip, lemma_seq_order_equal, lemma_seq_order_flip, lemma_seq_order_trans, order_strs, seq_order, Order};
use vstd::prelude::*;
use vstd::string::StringExecFns;

verus! {

/// One finding: the file it concerns, an optional line, a message and a
/// machine-readable code.
#[derive(Debug)]
pub struct DiagnosticError {
    pub file: String,
    pub line: Option<usize>,
    pub message: String,
    pub code: Option<String>,
}

/// The result of a check: whether the graph is healthy, and the findings.
#[derive(Debug)]
pub struct DiagnosticsOutput {
    pub ok: bool,
    pub errors: Vec<DiagnosticError>,
}

/// The content of a finding (every finding has a code and no line).
pub struct DiagView {
    pub file: Seq<char>,
    pub message: Seq<char>,
    pub code: Seq<char>,
}

/// The content of a finding, when it has a code and no line.
pub open spec fn diag_view(d: DiagnosticError) -> Option<DiagView> {
    match (d.line, d.code) {
        (None, Some(c)) => Some(DiagView { file: d.file@, message: d.message@, code: c@ }),
        _ => None,
    }
}

/// A finding's content.
pub open spec fn diag(file: Seq<char>, message: Seq<char>, code: Seq<char>) -> DiagView {
    DiagView { file, message, code }
}

/// The findings for IDs found in several files.
pub open spec fn duplicate_diags(dups: Seq<Seq<char>>) -> Seq<DiagView> {
    dups.map_values(
        |d: Seq<char>| diag("<multiple files>"@, "Duplicate task ID found: '"@ + d + "'"@, "duplicate_id"@),
    )
}

/// The findings for one task: a missing `created_at`, each unknown key, and
/// each prerequisite that names no task.
pub open spec fn node_diags(g: Seq<TaskNode>, n: TaskNode, cwd: Seq<char>) -> Seq<DiagView> {
    let f = shown_path(n.path@, cwd);
    let missing = if n.frontmatter.created_at is None {
        seq![diag(f, "Missing required frontmatter key: 'created_at'"@, "missing_created_at"@)]
    } else {
        Seq::empty()
    };
    let unknown = n.frontmatter.extra@.map_values(
        |kv: (String, String)| diag(f, "Unknown frontmatter key: '"@ + kv.0@ + "'"@, "unknown_key"@),
    );
    let dangling = n.frontmatter.needs.deep_view().filter(|d: Seq<char>| !has_id(g, d)).map_values(
        |d: Seq<char>| diag(f, "Dangling reference in 'needs': '"@ + d + "' not found"@, "dangling_need"@),
    );
    missing + unknown + dangling
}

/// The per-task findings of the first `k` tasks, in order.
pub open spec fn nodes_diags(g: Seq<TaskNode>, cwd: Seq<char>, k: int) -> Seq<DiagView>
    decreases k,
{
    if k <= 0 {
        Seq::empty()
    } else {
        nodes_diags(g, cwd, k - 1) + node_diags(g, g[k - 1], cwd)
    }
}

/// Position `p` is the first member of its component.
pub open spec fn scc_leader(s: Seq<TaskNode>, p: int) -> bool {
    forall|q: int| 0 <= q < p ==> !#[trigger] same_scc(s, p, q)
}

/// The component of `p` is a dependency cycle: it has another member, or
/// `p` needs itself.
pub open spec fn scc_cyclic(s: Seq<TaskNode>, p: int) -> bool {
    (exists|q: int| q != p && #[trigger] same_scc(s, p, q)) || dep_edge(s)(p, p)
}

/// The positions of the members of `p`'s component, in increasing order.
pub open spec fn scc_positions(s: Seq<TaskNode>, p: int) -> Seq<int> {
    Seq::new(s.len(), |q: int| q).filter(|q: int| same_scc(s, p, q))
}

/// The IDs of `p`'s component, sorted.
pub open spec fn cycle_ids(s: Seq<TaskNode>, p: int) -> Seq<Seq<char>> {
    choose|l: Seq<Seq<char>>|
        strictly_sorted(l) && forall|x: Seq<char>|
            #[trigger] l.contains(x) <==> exists|q: int| 0 <= q < s.len() && same_scc(s, p, q) && #[trigger] id_of(s[q]) == x
}

/// The message for the cycle holding `p`.
pub open spec fn cycle_message(s: Seq<TaskNode>, p: int) -> Seq<char> {
    "Dependency cycle detected: "@ + joined(cycle_ids(s, p), ", "@)
}

/// The cycle findings led by position `p`: one per member, in position order.
pub open spec fn cycle_diags_at(s: Seq<TaskNode>, cwd: Seq<char>, p: int) -> Seq<DiagView> {
    if scc_leader(s, p) && scc_cyclic(s, p) {
        scc_positions(s, p).map_values(
            |q: int| diag(shown_path(s[q].path@, cwd), cycle_message(s, p), "dependency_cycle"@),
        )
    } else {
        Seq::empty()
    }
}

/// The cycle findings led by the first `k` positions.
pub open spec fn cycles_diags(s: Seq<TaskNode>, cwd: Seq<char>, k: int) -> Seq<DiagView>
    decreases k,
{
    if k <= 0 {
        Seq::empty()
    } else {
        cycles_diags(s, cwd, k - 1) + cycle_diags_at(s, cwd, k - 1)
    }
}

/// All findings, before sorting: duplicate IDs, then each task's, then cycles.
pub open spec fn raw_diags(g: &TaskGraph, cwd: Seq<char>) -> Seq<DiagView> {
    duplicate_diags(g.duplicate_ids.deep_view()) + nodes_diags(g.nodes@, cwd, g.nodes@.len() as int) + cycles_diags(
        g.nodes@,
        cwd,
        g.nodes@.len() as int,
    )
}

/// Order of findings: by file, then message.
pub open spec fn diag_order(a: DiagView, b: DiagView) -> Order {
    let o = seq_order(a.file, b.file);
    if o != Order::Equal {
        o
    } else {
        seq_order(a.message, b.message)
    }
}

/// Position `i` of `raw` sorts before position `j`: by file and message, and
/// by position among equal ones (a stable sort).
pub open spec fn diag_before(raw: Seq<DiagView>, i: usize, j: usize) -> bool {
    let o = diag_order(raw[i as int], raw[j as int]);
    o == Order::Less || (o == Order::Equal && i < j)
}

/// `r` holds the findings of `raw`, sorted stably by file and message.
pub open spec fn sorted_diags(raw: Seq<DiagView>, r: Seq<DiagnosticError>) -> bool {
    exists|pos: Seq<usize>|
        {
            &&& #[trigger] same_elements(pos, positions(raw.len()))
            &&& sorted_by(|i: usize, j: usize| diag_before(raw, i, j), pos)
            &&& r.len() == pos.len()
            &&& forall|k: int| 0 <= k < pos.len() ==> diag_view(r[k]) == Some(raw[pos[k] as int])
        }
}

/// A finding with no line.
fn finding(file: String, message: String, code: &str) -> (d: DiagnosticError)
    ensures
        diag_view(d) == Some(diag(file@, message@, code@)),
{
    DiagnosticError { file, line: None, message, code: Some(String::from_str(code)) }
}

/// The file name shown for a task: relative to `cwd` when under it.
fn shown(path: &str, cwd: &str) -> (r: String)
    ensures
        r@ == shown_path(path@, cwd@),
{
    match strip_path_prefix(path, cwd) {
        Some(r) => r,
        None => path.to_string(),
    }
}

/// Appends the findings of one task.
fn push_node_diags(graph: &TaskGraph, n: &TaskNode, cwd: &str, out: &mut Vec<DiagnosticError>, Ghost(acc): Ghost<Seq<DiagView>>)
    requires
        old(out)@.len() == acc.len(),
        forall|k: int| 0 <= k < acc.len() ==> diag_view(#[trigger] old(out)@[k]) == Some(acc[k]),
    ensures
        ({
            let all = acc + node_diags(graph.nodes@, *n, cwd@);
            &&& final(out)@.len() == all.len()
            &&& forall|k: int| 0 <= k < all.len() ==> diag_view(#[trigger] final(out)@[k]) == Some(all[k])
        }),
{
    let f = shown(n.path.as_str(), cwd);
    let ghost fv = f@;
    let ghost missing = if n.frontmatter.created_at is None {
        seq![diag(fv, "Missing required frontmatter key: 'created_at'"@, "missing_created_at"@)]
    } else {
        Seq::<DiagView>::empty()
    };
    let ghost unknown = n.frontmatter.extra@.map_values(
        |kv: (String, String)| diag(fv, "Unknown frontmatter key: '"@ + kv.0@ + "'"@, "unknown_key"@),
    );
    let ghost pred = |d: Seq<char>| !has_id(graph.nodes@, d);
    let ghost dangling = n.frontmatter.needs.deep_view().filter(pred).map_values(
        |d: Seq<char>| diag(fv, "Dangling reference in 'needs': '"@ + d + "' not found"@, "dangling_need"@),
    );
    assert(node_diags(graph.nodes@, *n, cwd@) == missing + unknown + dangling);
    if n.frontmatter.created_at.is_none() {
        out.push(finding(f.clone(), String::from_str("Missing required frontmatter key: 'created_at'"), "missing_created_at"));
    }
    let ghost acc1 = acc + missing;
    assert(out@.len() == acc1.len());
    assert(forall|k: int| 0 <= k < acc1.len() ==> diag_view(#[trigger] out@[k]) == Some(acc1[k]));
    let mut i: usize = 0;
    while i < n.frontmatter.extra.len()
        invariant
            i <= n.frontmatter.extra.len(),
            f@ == fv,
            unknown == n.frontmatter.extra@.map_values(
                |kv: (String, String)| diag(fv, "Unknown frontmatter key: '"@ + kv.0@ + "'"@, "unknown_key"@),
            ),
            out@.len() == acc1.len() + i,
            forall|k: int| 0 <= k < acc1.len() + i ==> diag_view(#[trigger] out@[k]) == Some((acc1 + unknown)[k]),
        decreases n.frontmatter.extra.len() - i,
    {
        let mut m = String::from_str("Unknown frontmatter key: '");
        m.append(n.frontmatter.extra[i].0.as_str());
        m.append("'");
        out.push(finding(f.clone(), m, "unknown_key"));
        i = i + 1;
    }
    let ghost acc2 = acc1 + unknown;
    let ghost dv = n.frontmatter.needs.deep_view();
    let mut j: usize = 0;
    let mut added: usize = 0;
    while j < n.frontmatter.needs.len()
        invariant
            j <= n.frontmatter.needs.len(),
            f@ == fv,
            dv == n.frontmatter.needs.deep_view(),
            pred == (|d: Seq<char>| !has_id(graph.nodes@, d)),
            added == dv.take(j as int).filter(pred).len(),
            out@.len() == acc2.len() + added,
            forall|k: int| 0 <= k < acc2.len() ==> diag_view(#[trigger] out@[k]) == Some(acc2[k]),
            forall|k: int|
                0 <= k < added ==> diag_view(#[trigger] out@[acc2.len() + k]) == Some(
                    diag(fv, "Dangling reference in 'needs': '"@ + dv.take(j as int).filter(pred)[k] + "' not found"@, "dangling_need"@),
                ),
        decreases n.frontmatter.needs.len() - j,
    {
        let d = &n.frontmatter.needs[j];
        proof {
            let t = dv.take(j + 1);
            assert(t.drop_last() =~= dv.take(j as int));
            assert(t.last() == d@);
            reveal(Seq::filter);
        }
        if !graph.contains_key(d.as_str()) {
            let mut m = String::from_str("Dangling reference in 'needs': '");
            m.append(d.as_str());
            m.append("' not found");
            let ghost before = out@;
            out.push(finding(f.clone(), m, "dangling_need"));
            proof {
                assert(dv.take(j + 1).filter(pred) == dv.take(j as int).filter(pred).push(d@));
                assert forall|k: int| 0 <= k < acc2.len() implies diag_view(#[trigger] out@[k]) == Some(acc2[k]) by {
                    assert(out@[k] == before[k]);
                }
                assert forall|k: int| 0 <= k < added + 1 implies diag_view(#[trigger] out@[acc2.len() + k]) == Some(
                    diag(fv, "Dangling reference in 'needs': '"@ + dv.take(j + 1).filter(pred)[k] + "' not found"@, "dangling_need"@),
                ) by {
                    if k < added {
                        assert(out@[acc2.len() + k] == before[acc2.len() + k]);
                    }
                }
            }
            added = added + 1;
        } else {
            proof {
                assert(dv.take(j + 1).filter(pred) == dv.take(j as int).filter(pred));
            }
        }
        j = j + 1;
    }
    proof {
        assert(dv.take(dv.len() as int) =~= dv);
        let all = acc + node_diags(graph.nodes@, *n, cwd@);
        assert(all =~= acc2 + dangling);
        assert forall|k: int| 0 <= k < all.len() implies diag_view(#[trigger] out@[k]) == Some(all[k]) by {
            if k >= acc2.len() {
                let k2 = k - acc2.len();
                assert(dangling[k2] == diag(fv, "Dangling reference in 'needs': '"@ + dv.filter(pred)[k2] + "' not found"@, "dangling_need"@));
                assert(diag_view(out@[acc2.len() + k2]) == Some(
                    diag(fv, "Dangling reference in 'needs': '"@ + dv.take(dv.len() as int).filter(pred)[k2] + "' not found"@, "dangling_need"@),
                ));
                assert(acc2.len() + k2 == k);
            } else {
                assert(all[k] == acc2[k]);
            }
        }
    }
}


/// With distinct IDs, every position holds the last occurrence of its ID.
pub(crate) proof fn lemma_all_reps(s: Seq<TaskNode>)
    requires
        crate::graph::distinct_ids(s),
    ensures
        forall|p: int| 0 <= p < s.len() ==> #[trigger] crate::ordering::is_rep(s, p),
{
    assert forall|p: int| 0 <= p < s.len() implies #[trigger] crate::ordering::is_rep(s, p) by {
        assert forall|q: int| p < q < s.len() implies #[trigger] id_of(s[q]) != id_of(s[p]) by {}
    }
}

/// A component is a dependency cycle exactly when it has more than one
/// member or its task needs itself.
proof fn lemma_cyclic_when_shared(s: Seq<TaskNode>, p: int)
    requires
        0 <= p < s.len(),
        reach_facts(s),
        forall|x: int| 0 <= x < s.len() ==> #[trigger] crate::ordering::is_rep(s, x),
        forall|a: int, b: int|
            0 <= a < b < scc_positions(s, p).len() ==> #[trigger] scc_positions(s, p)[a] < #[trigger] scc_positions(
                s,
                p,
            )[b],
    ensures
        scc_cyclic(s, p) == (scc_positions(s, p).len() > 1 || dep_edge(s)(p, p)),
{
    let pred = |x: int| same_scc(s, p, x);
    let members = scc_positions(s, p);
    assert(crate::ordering::is_rep(s, p));
    assert(same_scc(s, p, p));
    Seq::new(s.len(), |q: int| q).lemma_filter_contains(pred, p);
    assert(members.contains(p));
    if members.len() > 1 {
        let k0 = choose|k: int| 0 <= k < members.len() && members[k] == p;
        let k1 = if k0 == 0 { 1int } else { 0int };
        let y = members[k1];
        Seq::new(s.len(), |q: int| q).lemma_filter_pred(pred, k1);
        assert(members[k0] != members[k1]);
        assert(y != p);
        assert(same_scc(s, p, y));
    }
    if exists|y: int| y != p && #[trigger] same_scc(s, p, y) {
        let y = choose|y: int| y != p && #[trigger] same_scc(s, p, y);
        assert(crate::ordering::is_rep(s, y));
        Seq::new(s.len(), |q: int| q).lemma_filter_contains(pred, y);
        assert(members.contains(y));
        assert(members.len() > 1) by {
            if members.len() <= 1 {
                let k0 = choose|k: int| 0 <= k < members.len() && members[k] == p;
                let k1 = choose|k: int| 0 <= k < members.len() && members[k] == y;
            }
        }
    }
}

/// Appends the cycle findings led by position `p`, the first member of its
/// component: one per member when the component is a cycle.
fn push_component_diags(
    graph: &TaskGraph,
    mat: &Vec<Vec<bool>>,
    p: usize,
    cwd: &str,
    out: &mut Vec<DiagnosticError>,
    Ghost(acc_p): Ghost<Seq<DiagView>>,
)
    requires
        graph.wf(),
        p < graph.nodes@.len(),
        reach_facts(graph.nodes@),
        forall|x: int| 0 <= x < graph.nodes@.len() ==> #[trigger] crate::ordering::is_rep(graph.nodes@, x),
        mat.len() == graph.nodes@.len(),
        forall|x: int| 0 <= x < mat.len() ==> (#[trigger] mat@[x]).len() == mat.len(),
        forall|x: int, y: int| 0 <= x < mat.len() && 0 <= y < mat.len() ==> (mat@[x]@[y] <==> reaches(graph.nodes@, x, y)),
        scc_leader(graph.nodes@, p as int),
        old(out)@.len() == acc_p.len(),
        forall|k: int| 0 <= k < acc_p.len() ==> diag_view(#[trigger] old(out)@[k]) == Some(acc_p[k]),
    ensures
        ({
            let all = acc_p + cycle_diags_at(graph.nodes@, cwd@, p as int);
            &&& final(out)@.len() == all.len()
            &&& forall|k: int| 0 <= k < all.len() ==> diag_view(#[trigger] final(out)@[k]) == Some(all[k])
        }),
{
    let ghost s = graph.nodes@;
    let n = graph.nodes.len();
    let ghost pred = |x: int| same_scc(s, p as int, x);
    let ms = component_positions(Ghost(s), mat, p);
    let mut ids: Vec<String> = Vec::new();
    let mut i: usize = 0;
    while i < ms.len()
        invariant
            i <= ms.len(),
            n == s.len(),
            s == graph.nodes@,
            forall|k: int| 0 <= k < ms.len() ==> (#[trigger] ms@[k]) < n,
            ids.len() == i,
            forall|k: int| 0 <= k < i ==> ids@[k]@ == id_of(s[#[trigger] ms@[k] as int]),
        decreases ms.len() - i,
    {
        ids.push(graph.nodes[ms[i]].frontmatter.id.clone());
        i = i + 1;
    }
    let ghost members = scc_positions(s, p as int);
    let self_loop = contains_str(&graph.nodes[p].frontmatter.needs, graph.nodes[p].frontmatter.id.as_str());
    assert(self_loop == dep_edge(s)(p as int, p as int));
    let cyclic = ms.len() > 1 || self_loop;
    proof {
        assert forall|a: int, b: int| 0 <= a < b < members.len() implies #[trigger] members[a] < #[trigger] members[b] by {
            assert(members[a] == ms@[a] as int && members[b] == ms@[b] as int);
        }
        lemma_cyclic_when_shared(s, p as int);
    }
    if cyclic {
        let empty: Vec<String> = Vec::new();
        let sorted = sorted_union(&ids, &empty);
        let mut msg = String::from_str("Dependency cycle detected: ");
        let joined_ids = join_strs(&sorted, ", ");
        msg.append(joined_ids.as_str());
        proof {
            let l = sorted.deep_view();
            assert forall|xx: Seq<char>| #[trigger] l.contains(xx) <==> exists|q: int|
                0 <= q < s.len() && same_scc(s, p as int, q) && #[trigger] id_of(s[q]) == xx by {
                if l.contains(xx) {
                    assert(ids.deep_view().contains(xx) || empty.deep_view().contains(xx));
                    let k = choose|k: int| 0 <= k < ids.len() && ids.deep_view()[k] == xx;
                    assert(ms@[k] < n);
                    let q = ms@[k] as int;
                    assert(members[k] == q);
                    Seq::new(s.len(), |q: int| q).lemma_filter_pred(pred, k);
                    assert(id_of(s[q]) == xx);
                }
                if exists|q: int| 0 <= q < s.len() && same_scc(s, p as int, q) && #[trigger] id_of(s[q]) == xx {
                    let q = choose|q: int| 0 <= q < s.len() && same_scc(s, p as int, q) && #[trigger] id_of(s[q]) == xx;
                    Seq::new(s.len(), |q: int| q).lemma_filter_contains(pred, q);
                    let k = choose|k: int| 0 <= k < members.len() && members[k] == q;
                    assert(ms@[k] as int == q);
                    assert(ids.deep_view()[k] == xx);
                    assert(ids.deep_view().contains(xx));
                }
            }
            let c = cycle_ids(s, p as int);
            lemma_sorted_unique(l, c);
            assert(msg@ == cycle_message(s, p as int));
        }
        let mut k: usize = 0;
        while k < ms.len()
            invariant
                k <= ms.len(),
                members.len() == ms.len(),
                n == s.len(),
                s == graph.nodes@,
                forall|j: int| 0 <= j < ms.len() ==> (#[trigger] ms@[j]) < n,
                ms@.map_values(|y: usize| y as int) == members,
                msg@ == cycle_message(s, p as int),
                out@.len() == acc_p.len() + k,
                forall|j: int| 0 <= j < acc_p.len() ==> diag_view(#[trigger] out@[j]) == Some(acc_p[j]),
                forall|j: int|
                    0 <= j < k ==> diag_view(#[trigger] out@[acc_p.len() + j]) == Some(
                        diag(shown_path(s[members[j]].path@, cwd@), cycle_message(s, p as int), "dependency_cycle"@),
                    ),
            decreases ms.len() - k,
        {
            let q = ms[k];
            let ghost before_k = out@;
            proof {
                assert(members[k as int] == ms@[k as int] as int);
            }
            out.push(finding(shown(graph.nodes[q].path.as_str(), cwd), msg.clone(), "dependency_cycle"));
            proof {
                assert forall|j: int| 0 <= j < acc_p.len() implies diag_view(#[trigger] out@[j]) == Some(acc_p[j]) by {
                    assert(out@[j] == before_k[j]);
                }
                assert forall|j: int| 0 <= j < k + 1 implies diag_view(#[trigger] out@[acc_p.len() + j]) == Some(
                    diag(shown_path(s[members[j]].path@, cwd@), cycle_message(s, p as int), "dependency_cycle"@),
                ) by {
                    if j < k {
                        assert(out@[acc_p.len() + j] == before_k[acc_p.len() + j]);
                    }
                }
            }
            k = k + 1;
        }
        proof {
            let cda = cycle_diags_at(s, cwd@, p as int);
            assert(cda.len() == members.len());
            assert forall|j: int| 0 <= j < (acc_p + cda).len() implies diag_view(#[trigger] out@[j]) == Some((acc_p + cda)[j]) by {
                if j >= acc_p.len() {
                    let j2 = j - acc_p.len();
                    assert(diag_view(out@[acc_p.len() + j2]) == Some(
                        diag(shown_path(s[members[j2]].path@, cwd@), cycle_message(s, p as int), "dependency_cycle"@),
                    ));
                }
            }
            assert(out@.len() == (acc_p + cda).len());
        }
    } else {
        proof {
            assert(cycle_diags_at(s, cwd@, p as int) =~= Seq::<DiagView>::empty());
            assert(acc_p + cycle_diags_at(s, cwd@, p as int) =~= acc_p);
        }
    }
}

/// Appends the cycle findings of the graph.
fn push_cycle_diags(graph: &TaskGraph, cwd: &str, out: &mut Vec<DiagnosticError>, Ghost(acc): Ghost<Seq<DiagView>>)
    requires
        graph.wf(),
        old(out)@.len() == acc.len(),
        forall|k: int| 0 <= k < acc.len() ==> diag_view(#[trigger] old(out)@[k]) == Some(acc[k]),
    ensures
        ({
            let all = acc + cycles_diags(graph.nodes@, cwd@, graph.nodes@.len() as int);
            &&& final(out)@.len() == all.len()
            &&& forall|k: int| 0 <= k < all.len() ==> diag_view(#[trigger] final(out)@[k]) == Some(all[k])
        }),
{
    let ghost s = graph.nodes@;
    let n = graph.nodes.len();
    let refs = refs_of(&graph.nodes);
    let adj = dependents_lists(&refs);
    let reps = rep_flags(&refs);
    let mat = reach_matrix(&refs, &adj, &reps);
    proof {
        lemma_reaches_facts(s);
        lemma_all_reps(s);
    }
    let mut p: usize = 0;
    while p < n
        invariant
            s == graph.nodes@,
            s == deref_nodes(refs@),
            graph.wf(),
            n == s.len(),
            p <= n,
            reach_facts(s),
            forall|x: int| 0 <= x < s.len() ==> #[trigger] crate::ordering::is_rep(s, x),
            mat.len() == n,
            forall|x: int| 0 <= x < n ==> (#[trigger] mat@[x]).len() == n,
            forall|x: int, y: int| 0 <= x < n && 0 <= y < n ==> (mat@[x]@[y] <==> reaches(s, x, y)),
            ({
                let all = acc + cycles_diags(s, cwd@, p as int);
                &&& out@.len() == all.len()
                &&& forall|k: int| 0 <= k < all.len() ==> diag_view(#[trigger] out@[k]) == Some(all[k])
            }),
        decreases n - p,
    {
        let ghost before = out@;
        let ghost acc_p = acc + cycles_diags(s, cwd@, p as int);
        let mut leader = true;
        let mut q: usize = 0;
        while q < p
            invariant
                q <= p < n,
                n == s.len(),
                mat.len() == n,
                forall|x: int| 0 <= x < n ==> (#[trigger] mat@[x]).len() == n,
                forall|x: int, y: int| 0 <= x < n && 0 <= y < n ==> (mat@[x]@[y] <==> reaches(s, x, y)),
                leader == forall|x: int| 0 <= x < q ==> !#[trigger] same_scc(s, p as int, x),
            decreases p - q,
        {
            if mat[p][q] && mat[q][p] {
                assert(same_scc(s, p as int, q as int));
                leader = false;
            }
            q = q + 1;
        }
        if leader {
            proof {
                assert(scc_leader(s, p as int));
            }
            push_component_diags(graph, &mat, p, cwd, out, Ghost(acc_p));
        } else {
            proof {
                assert(!scc_leader(s, p as int));
                assert(cycle_diags_at(s, cwd@, p as int) =~= Seq::<DiagView>::empty());
                assert(acc_p + cycle_diags_at(s, cwd@, p as int) =~= acc_p);
            }
        }
        proof {
            assert(acc + cycles_diags(s, cwd@, p + 1) =~= acc_p + cycle_diags_at(s, cwd@, p as int));
        }
        p = p + 1;
    }
}

/// The order of findings is antisymmetric, and only equal content compares
/// equal.
pub proof fn lemma_diag_flip(a: DiagView, b: DiagView)
    ensures
        diag_order(b, a) == flip(diag_order(a, b)),
        diag_order(a, b) == Order::Equal ==> a.file == b.file && a.message == b.message,
{
    lemma_seq_order_flip(a.file, b.file);
    lemma_seq_order_flip(a.message, b.message);
    lemma_seq_order_equal(a.file, b.file);
    lemma_seq_order_equal(a.message, b.message);
}

/// The order of findings is transitive.
pub proof fn lemma_diag_trans(a: DiagView, b: DiagView, c: DiagView)
    requires
        diag_order(a, b) != Order::Greater,
        diag_order(b, c) != Order::Greater,
    ensures
        diag_order(a, c) != Order::Greater,
        (diag_order(a, b) == Order::Less || diag_order(b, c) == Order::Less) ==> diag_order(a, c) == Order::Less,
{
    lemma_seq_order_equal(a.file, b.file);
    lemma_seq_order_equal(b.file, c.file);
    lemma_seq_order_equal(a.file, c.file);
    lemma_seq_order_trans(a.file, b.file, c.file);
    lemma_seq_order_flip(a.file, c.file);
    if a.file == b.file && b.file == c.file {
        lemma_seq_order_trans(a.message, b.message, c.message);
    }
}

/// A copy of a finding.
fn copy_finding(d: &DiagnosticError) -> (r: DiagnosticError)
    ensures
        diag_view(r) == diag_view(*d),
{
    let code = match &d.code {
        Some(c) => Some(c.clone()),
        None => None,
    };
    DiagnosticError { file: d.file.clone(), line: d.line, message: d.message.clone(), code }
}

/// Appends the findings for IDs found in several files.
fn push_duplicate_diags(graph: &TaskGraph, out: &mut Vec<DiagnosticError>)
    requires
        old(out)@.len() == 0,
    ensures
        ({
            let all = duplicate_diags(graph.duplicate_ids.deep_view());
            &&& final(out)@.len() == all.len()
            &&& forall|k: int| 0 <= k < all.len() ==> diag_view(#[trigger] final(out)@[k]) == Some(all[k])
        }),
{
    let ghost all = duplicate_diags(graph.duplicate_ids.deep_view());
    let mut i: usize = 0;
    while i < graph.duplicate_ids.len()
        invariant
            i <= graph.duplicate_ids.len(),
            all == duplicate_diags(graph.duplicate_ids.deep_view()),
            out@.len() == i,
            forall|k: int| 0 <= k < i ==> diag_view(#[trigger] out@[k]) == Some(all[k]),
        decreases graph.duplicate_ids.len() - i,
    {
        let mut m = String::from_str("Duplicate task ID found: '");
        m.append(graph.duplicate_ids[i].as_str());
        m.append("'");
        let ghost before = out@;
        out.push(finding(String::from_str("<multiple files>"), m, "duplicate_id"));
        proof {
            assert forall|k: int| 0 <= k < i + 1 implies diag_view(#[trigger] out@[k]) == Some(all[k]) by {
                if k < i {
                    assert(out@[k] == before[k]);
                }
            }
        }
        i = i + 1;
    }
}

/// All findings of a graph, sorted by file and then message: IDs found in
/// several files, tasks without `created_at`, unknown frontmatter keys,
/// prerequisites that name no task, and dependency cycles (one finding per
/// member, naming the sorted IDs of the cycle). File names are shown
/// relative to `cwd` when under it.
pub fn collect_diagnostics(graph: &TaskGraph, cwd: &str) -> (r: Vec<DiagnosticError>)
    requires
        graph.wf(),
    ensures
        sorted_diags(raw_diags(graph, cwd@), r@),
{
    let ghost s = graph.nodes@;
    let mut raw: Vec<DiagnosticError> = Vec::new();
    push_duplicate_diags(graph, &mut raw);
    let ghost d0 = duplicate_diags(graph.duplicate_ids.deep_view());
    let mut i: usize = 0;
    while i < graph.nodes.len()
        invariant
            i <= graph.nodes.len(),
            s == graph.nodes@,
            ({
                let all = d0 + nodes_diags(s, cwd@, i as int);
                &&& raw@.len() == all.len()
                &&& forall|k: int| 0 <= k < all.len() ==> diag_view(#[trigger] raw@[k]) == Some(all[k])
            }),
        decreases graph.nodes.len() - i,
    {
        let ghost acc = d0 + nodes_diags(s, cwd@, i as int);
        push_node_diags(graph, &graph.nodes[i], cwd, &mut raw, Ghost(acc));
        proof {
            assert(d0 + nodes_diags(s, cwd@, i + 1) =~= acc + node_diags(s, s[i as int], cwd@));
        }
        i = i + 1;
    }
    let ghost acc = d0 + nodes_diags(s, cwd@, s.len() as int);
    push_cycle_diags(graph, cwd, &mut raw, Ghost(acc));
    let ghost rv = raw_diags(graph, cwd@);
    proof {
        assert(acc + cycles_diags(s, cwd@, s.len() as int) =~= rv);
    }
    let n = raw.len();
    let mut idx: Vec<usize> = Vec::new();
    let mut j: usize = 0;
    while j < n
        invariant
            j <= n,
            idx@ == positions(j as nat),
        decreases n - j,
    {
        idx.push(j);
        assert(idx@ =~= positions((j + 1) as nat));
        j = j + 1;
    }
    let ghost lt = |x: usize, y: usize| diag_before(rv, x, y);
    proof {
        assert forall|x: usize| #[trigger] idx@.contains(x) implies x < n by {
            let w = choose|w: int| 0 <= w < idx.len() && idx@[w] == x;
        }
        assert(idx@.no_duplicates());
        assert forall|x: usize| #[trigger] idx@.contains(x) implies !lt(x, x) by {
            lemma_diag_flip(rv[x as int], rv[x as int]);
        }
        assert forall|x: usize, y: usize| idx@.contains(x) && idx@.contains(y) && x != y implies #[trigger] lt(x, y)
            || #[trigger] lt(y, x) by {
            lemma_diag_flip(rv[x as int], rv[y as int]);
        }
        assert forall|x: usize, y: usize, z: usize|
            idx@.contains(x) && idx@.contains(y) && idx@.contains(z) && #[trigger] lt(x, y) && #[trigger] lt(y, z) implies lt(
            x,
            z,
        ) by {
            lemma_diag_flip(rv[x as int], rv[y as int]);
            lemma_diag_flip(rv[y as int], rv[z as int]);
            lemma_diag_trans(rv[x as int], rv[y as int], rv[z as int]);
        }
    }
    let rr = &raw;
    let less = |x: usize, y: usize| -> (o: bool)
        requires
            x < rr.len(),
            y < rr.len(),
            rr@.len() == raw_diags(graph, cwd@).len(),
            forall|k: int| 0 <= k < raw_diags(graph, cwd@).len() ==> diag_view(#[trigger] rr@[k]) == Some(raw_diags(graph, cwd@)[k]),
        ensures
            o == diag_before(raw_diags(graph, cwd@), x, y),
        {
            let a = &rr[x];
            let b = &rr[y];
            assert(diag_view(rr@[x as int]) == Some(raw_diags(graph, cwd@)[x as int]));
            assert(diag_view(rr@[y as int]) == Some(raw_diags(graph, cwd@)[y as int]));
            let of = order_strs(a.file.as_str(), b.file.as_str());
            let o = if of != Order::Equal {
                of
            } else {
                order_strs(a.message.as_str(), b.message.as_str())
            };
            o == Order::Less || (o == Order::Equal && x < y)
        };
    proof {
        assert forall|x: usize, y: usize| idx@.contains(x) && idx@.contains(y) implies #[trigger] less.requires((x, y)) by {}
    }
    let sorted = sort_by_less(&idx, &less, Ghost(lt));
    let mut r: Vec<DiagnosticError> = Vec::new();
    let mut k: usize = 0;
    while k < sorted.len()
        invariant
            k <= sorted.len(),
            same_elements(sorted@, idx@),
            forall|x: usize| #[trigger] idx@.contains(x) ==> x < n,
            n == raw.len(),
            raw@.len() == rv.len(),
            forall|q: int| 0 <= q < rv.len() ==> diag_view(#[trigger] raw@[q]) == Some(rv[q]),
            r.len() == k,
            forall|q: int| 0 <= q < k ==> diag_view(#[trigger] r@[q]) == Some(rv[sorted@[q] as int]),
        decreases sorted.len() - k,
    {
        assert(sorted@.contains(sorted@[k as int]));
        let d = copy_finding(&raw[sorted[k]]);
        r.push(d);
        k = k + 1;
    }
    proof {
        assert(same_elements(sorted@, positions(rv.len())));
        assert(sorted_by(|i: usize, j: usize| diag_before(rv, i, j), sorted@));
    }
    r
}

/// The report of a check: healthy exactly when there is no finding.
pub fn diagnostics_output(graph: &TaskGraph, cwd: &str) -> (r: DiagnosticsOutput)
    requires
        graph.wf(),
    ensures
        sorted_diags(raw_diags(graph, cwd@), r.errors@),
        r.ok <==> raw_diags(graph, cwd@).len() == 0,
{
    let errors = collect_diagnostics(graph, cwd);
    proof {
        let pos = choose|pos: Seq<usize>|
            {
                &&& #[trigger] same_elements(pos, positions(raw_diags(graph, cwd@).len()))
                &&& sorted_by(|i: usize, j: usize| diag_before(raw_diags(graph, cwd@), i, j), pos)
                &&& errors@.len() == pos.len()
                &&& forall|k: int| 0 <= k < pos.len() ==> diag_view(errors@[k]) == Some(raw_diags(graph, cwd@)[pos[k] as int])
            };
    }
    let ok = errors.len() == 0;
    DiagnosticsOutput { ok, errors }
}

/// A task with a missing `created_at` backfilled with `now`.
pub open spec fn repaired(n: NodeView, now: Timestamp) -> NodeView {
    if n.fm.created_at is None {
        NodeView { fm: FrontmatterView { created_at: Some(now), ..n.fm }, ..n }
    } else {
        n
    }
}

/// Backfills a missing `created_at` with `now`; whether the task changed.
pub fn repair_node_at(node: &mut TaskNode, now: Timestamp) -> (modified: bool)
    ensures
        modified <==> old(node).frontmatter.created_at is None,
        final(node)@ == repaired(old(node)@, now),
{
    if node.frontmatter.created_at.is_none() {
        node.frontmatter.created_at = Some(now);
        true
    } else {
        false
    }
}

/// Repairs every task of the graph at time `now`, and returns the IDs of
/// the tasks that changed, sorted.
pub fn repair_graph_at(graph: &mut TaskGraph, now: Timestamp) -> (fixed: Vec<String>)
    requires
        old(graph).wf(),
    ensures
        final(graph).wf(),
        final(graph).duplicate_ids@ == old(graph).duplicate_ids@,
        final(graph).nodes@.len() == old(graph).nodes@.len(),
        forall|i: int|
            0 <= i < old(graph).nodes@.len() ==> #[trigger] final(graph).nodes@[i]@ == repaired(old(graph).nodes@[i]@, now),
        strictly_sorted(fixed.deep_view()),
        forall|x: Seq<char>|
            #[trigger] fixed.deep_view().contains(x) <==> exists|i: int|
                0 <= i < old(graph).nodes@.len() && old(graph).nodes@[i].frontmatter.created_at is None && #[trigger] id_of(
                    old(graph).nodes@[i],
                ) == x,
{
    let ghost s = graph.nodes@;
    let mut ids: Vec<String> = Vec::new();
    let mut i: usize = 0;
    while i < graph.nodes.len()
        invariant
            i <= graph.nodes.len(),
            graph.nodes@.len() == s.len(),
            graph.duplicate_ids@ == old(graph).duplicate_ids@,
            s == old(graph).nodes@,
            distinct_ids(s),
            forall|k: int| 0 <= k < i ==> #[trigger] graph.nodes@[k]@ == repaired(s[k]@, now),
            forall|k: int| i <= k < s.len() ==> #[trigger] graph.nodes@[k] == s[k],
            forall|x: Seq<char>|
                #[trigger] ids.deep_view().contains(x) <==> exists|k: int|
                    0 <= k < i && s[k].frontmatter.created_at is None && #[trigger] id_of(s[k]) == x,
        decreases graph.nodes.len() - i,
    {
        if graph.nodes[i].frontmatter.created_at.is_none() {
            let mut n = graph.nodes[i].clone();
            let ghost old_ids = ids.deep_view();
            ids.push(n.frontmatter.id.clone());
            n.frontmatter.created_at = Some(now);
            graph.nodes.set(i, n);
            proof {
                let y = id_of(s[i as int]);
                assert(ids.deep_view() =~= old_ids.push(y));
                assert forall|x: Seq<char>|
                    #[trigger] ids.deep_view().contains(x) <==> exists|k: int|
                        0 <= k < i + 1 && s[k].frontmatter.created_at is None && #[trigger] id_of(s[k]) == x by {
                    crate::sorting::lemma_push_contains(old_ids, y, x);
                    if x == y {
                        assert(0 <= i < i + 1 && s[i as int].frontmatter.created_at is None && id_of(s[i as int]) == x);
                    }
                    if old_ids.contains(x) {
                        let k = choose|k: int| 0 <= k < i && s[k].frontmatter.created_at is None && #[trigger] id_of(s[k]) == x;
                        assert(0 <= k < i + 1 && s[k].frontmatter.created_at is None && id_of(s[k]) == x);
                    }
                    if exists|k: int| 0 <= k < i + 1 && s[k].frontmatter.created_at is None && #[trigger] id_of(s[k]) == x {
                        let k = choose|k: int| 0 <= k < i + 1 && s[k].frontmatter.created_at is None && #[trigger] id_of(s[k]) == x;
                        if k < i {
                            assert(old_ids.contains(x));
                        }
                    }
                }
            }
        } else {
            proof {
                assert forall|x: Seq<char>|
                    #[trigger] ids.deep_view().contains(x) <==> exists|k: int|
                        0 <= k < i + 1 && s[k].frontmatter.created_at is None && #[trigger] id_of(s[k]) == x by {
                    if exists|k: int| 0 <= k < i + 1 && s[k].frontmatter.created_at is None && #[trigger] id_of(s[k]) == x {
                        let k = choose|k: int| 0 <= k < i + 1 && s[k].frontmatter.created_at is None && #[trigger] id_of(s[k]) == x;
                        assert(k < i);
                    }
                }
            }
        }
        i = i + 1;
    }
    proof {
        assert forall|a: int, b: int|
            0 <= a < graph.nodes@.len() && 0 <= b < graph.nodes@.len() && a != b implies #[trigger] id_of(graph.nodes@[a])
            != #[trigger] id_of(graph.nodes@[b]) by {
            assert(graph.nodes@[a]@ == repaired(s[a]@, now));
            assert(graph.nodes@[b]@ == repaired(s[b]@, now));
            assert(id_of(graph.nodes@[a]) == id_of(s[a]));
            assert(id_of(graph.nodes@[b]) == id_of(s[b]));
        }
    }
    let empty: Vec<String> = Vec::new();
    sorted_union(&ids, &empty)
}

/// Repairs every task of the graph at the current time; what holds is what
/// [`repair_graph_at`] states for the instant read.
pub fn repair_graph(graph: &mut TaskGraph) -> (r: (Vec<String>, Timestamp))
    requires
        old(graph).wf(),
    ensures
        final(graph).wf(),
        final(graph).nodes@.len() == old(graph).nodes@.len(),
        forall|i: int|
            0 <= i < old(graph).nodes@.len() ==> #[trigger] final(graph).nodes@[i]@ == repaired(old(graph).nodes@[i]@, r.1),
        strictly_sorted(r.0.deep_view()),
        forall|x: Seq<char>|
            #[trigger] r.0.deep_view().contains(x) <==> exists|i: int|
                0 <= i < old(graph).nodes@.len() && old(graph).nodes@[i].frontmatter.created_at is None && #[trigger] id_of(
                    old(graph).nodes@[i],
                ) == x,
{
    let now = current_task_time();
    let fixed = repair_graph_at(graph, now);
    (fixed, now)
}

/// After a repair no task lacks `created_at`, so a check finds no task
/// without it.
pub proof fn lemma_repair_fills_created_at(n: NodeView, now: Timestamp)
    ensures
        repaired(n, now).fm.created_at is Some,
        n.fm.created_at is Some ==> repaired(n, now) == n,
{
}
} // verus!
