//! The dependency-aware default order of a list of tasks.
//!
//! Tasks are grouped into strongly connected components of the "is needed
//! by" relation (a dependency cycle forms one component). Components are
//! emitted in dependency order; among the components whose prerequisites
//! have all been emitted, the one holding the best-ranked task goes first.
//! Inside a cycle, tasks are ordered by creation time, then ID.
use crate::graph::{
    blocking_count, dep_edge, dependents_lists, deref_nodes, id_of, key_less, lemma_next_key_flip,
    lemma_next_key_trans, next_before, next_key_order, rank_ok, RankInfo, TaskGraph,
};
use crate::models::{lemma_opt_time_flip, lemma_opt_time_trans, opt_time_order, order_opt_time, TaskNode};
use crate::reach::{
    count_true, lemma_count_true_mono, lemma_reaches_ends, lemma_reaches_refl, lemma_reaches_trans,
    reach_from, reaches_from, single,
};
use crate::sorting::{same_elements, sort_by_less, sorted_by, strict_total_on};
use crate::text::{
    flip, lemma_seq_order_equal, lemma_seq_order_flip, lemma_seq_order_trans, order_strs, same_str,
    seq_order, Order,
};
use vstd::prelude::*;

verus! {

/// Position `p` holds the last occurrence of its task ID; later occurrences
/// of an ID replace earlier ones.
pub open spec fn is_rep(s: Seq<TaskNode>, p: int) -> bool {
    &&& 0 <= p < s.len()
    &&& forall|q: int| p < q < s.len() ==> #[trigger] id_of(s[q]) != id_of(s[p])
}

/// The positions that hold the last occurrence of their task ID.
pub open spec fn rep_mask(s: Seq<TaskNode>) -> Seq<bool> {
    Seq::new(s.len(), |p: int| is_rep(s, p))
}

/// Task `q` depends, directly or transitively, on task `p` (or is `p`),
/// following prerequisites among the kept positions.
pub open spec fn reaches(s: Seq<TaskNode>, p: int, q: int) -> bool {
    reaches_from(dep_edge(s), rep_mask(s), p, q)
}

/// `p` and `q` lie in the same strongly connected component.
pub open spec fn same_scc(s: Seq<TaskNode>, p: int, q: int) -> bool {
    reaches(s, p, q) && reaches(s, q, p)
}

/// `p` must come before `q`: `q` depends on `p` and not the other way round.
pub open spec fn strictly_before(s: Seq<TaskNode>, p: int, q: int) -> bool {
    reaches(s, p, q) && !reaches(s, q, p)
}

/// Order inside a dependency cycle: creation time (unset first), then ID.
pub open spec fn cycle_order(a: TaskNode, b: TaskNode) -> Order {
    let t = opt_time_order(a.frontmatter.created_at, b.frontmatter.created_at);
    if t != Order::Equal {
        t
    } else {
        seq_order(id_of(a), id_of(b))
    }
}

/// `a` comes strictly before `b` inside a cycle.
pub open spec fn cycle_before(a: TaskNode, b: TaskNode) -> bool {
    cycle_order(a, b) == Order::Less
}

/// The component of `a` holds a task that ranks, in the graph `g`, strictly
/// before every task of the component of `b`.
pub open spec fn scc_before(g: Seq<TaskNode>, s: Seq<TaskNode>, a: int, b: int) -> bool {
    exists|x: int|
        #[trigger] same_scc(s, a, x) && forall|y: int| #[trigger] same_scc(s, b, y) ==> next_before(g, s[x], s[y])
}

/// Every prerequisite component of `q` lies among the given positions.
pub open spec fn ready_after(s: Seq<TaskNode>, done: Seq<usize>, q: int) -> bool {
    forall|a: int| #[trigger] strictly_before(s, a, q) ==> done.contains(a as usize)
}

/// Position `k` of `pos` starts a new component.
pub open spec fn block_start(s: Seq<TaskNode>, pos: Seq<usize>, k: int) -> bool {
    k == 0 || !same_scc(s, pos[k - 1] as int, pos[k] as int)
}

/// The greedy choice at block start `k`: its component ranks before every
/// other component that was ready at that point.
pub open spec fn greedy_at(g: Seq<TaskNode>, s: Seq<TaskNode>, pos: Seq<usize>, k: int) -> bool {
    forall|q: int|
        is_rep(s, q) && !pos.take(k).contains(q as usize) && !same_scc(s, pos[k] as int, q) && ready_after(
            s,
            pos.take(k),
            q,
        ) ==> #[trigger] scc_before(g, s, pos[k] as int, q)
}

/// `pos` lists the positions of `s` in the default order, with blocking
/// counts taken from the graph `g`:
/// each kept position exactly once; components contiguous; every task after
/// the tasks it depends on outside its component; tasks of a component by
/// creation time then ID; and at each component boundary, the best-ranked
/// ready component.
pub open spec fn is_default_order(g: Seq<TaskNode>, s: Seq<TaskNode>, pos: Seq<usize>) -> bool {
    &&& pos.no_duplicates()
    &&& forall|k: int| 0 <= k < pos.len() ==> is_rep(s, #[trigger] pos[k] as int)
    &&& forall|p: int| is_rep(s, p) ==> #[trigger] pos.contains(p as usize)
    &&& forall|k1: int, k2: int, k3: int|
        0 <= k1 < k2 < k3 < pos.len() && same_scc(s, #[trigger] pos[k1] as int, #[trigger] pos[k3] as int)
            ==> same_scc(s, pos[k1] as int, #[trigger] pos[k2] as int)
    &&& forall|k1: int, k2: int|
        0 <= k1 < k2 < pos.len() ==> !strictly_before(s, #[trigger] pos[k2] as int, #[trigger] pos[k1] as int)
    &&& forall|k1: int, k2: int|
        0 <= k1 < k2 < pos.len() && same_scc(s, #[trigger] pos[k1] as int, #[trigger] pos[k2] as int)
            ==> cycle_before(s[pos[k1] as int], s[pos[k2] as int])
    &&& forall|k: int| 0 <= k < pos.len() && #[trigger] block_start(s, pos, k) ==> greedy_at(g, s, pos, k)
}

/// Comparing the other way round gives the opposite outcome; only equal IDs
/// compare equal.
pub proof fn lemma_cycle_flip(a: TaskNode, b: TaskNode)
    ensures
        cycle_order(b, a) == flip(cycle_order(a, b)),
        cycle_order(a, b) == Order::Equal ==> id_of(a) == id_of(b),
{
    lemma_opt_time_flip(a.frontmatter.created_at, b.frontmatter.created_at);
    lemma_seq_order_flip(id_of(a), id_of(b));
    lemma_seq_order_equal(id_of(a), id_of(b));
}

/// The order inside a cycle is transitive.
pub proof fn lemma_cycle_trans(a: TaskNode, b: TaskNode, c: TaskNode)
    requires
        cycle_before(a, b),
        cycle_before(b, c),
    ensures
        cycle_before(a, c),
{
    let (ta, tb, tc) = (a.frontmatter.created_at, b.frontmatter.created_at, c.frontmatter.created_at);
    lemma_opt_time_flip(ta, tb);
    lemma_opt_time_flip(tb, tc);
    lemma_opt_time_flip(ta, tc);
    if opt_time_order(ta, tb) != Order::Greater && opt_time_order(tb, tc) != Order::Greater {
        lemma_opt_time_trans(ta, tb, tc);
    }
    if seq_order(id_of(a), id_of(b)) == Order::Less && seq_order(id_of(b), id_of(c)) == Order::Less {
        lemma_seq_order_trans(id_of(a), id_of(b), id_of(c));
    }
    lemma_seq_order_equal(id_of(a), id_of(b));
    lemma_seq_order_equal(id_of(b), id_of(c));
}

/// Kept positions have pairwise different task IDs.
pub proof fn lemma_reps_distinct(s: Seq<TaskNode>, p: int, q: int)
    requires
        is_rep(s, p),
        is_rep(s, q),
        p != q,
    ensures
        id_of(s[p]) != id_of(s[q]),
{
    if p < q {
        assert(id_of(s[q]) != id_of(s[p]));
    } else {
        assert(id_of(s[p]) != id_of(s[q]));
    }
}

/// Facts about reaching: its ends are kept positions, it is reflexive on kept
/// positions and transitive.
pub proof fn lemma_reaches_facts(s: Seq<TaskNode>)
    ensures
        forall|p: int, q: int| #[trigger] reaches(s, p, q) ==> is_rep(s, p) && is_rep(s, q),
        forall|p: int| is_rep(s, p) ==> #[trigger] reaches(s, p, p),
        forall|p: int, q: int, r: int| #[trigger] reaches(s, p, q) && #[trigger] reaches(s, q, r) ==> reaches(s, p, r),
{
    assert forall|p: int, q: int| #[trigger] reaches(s, p, q) implies is_rep(s, p) && is_rep(s, q) by {
        lemma_reaches_ends(dep_edge(s), rep_mask(s), p, q);
    }
    assert forall|p: int| is_rep(s, p) implies #[trigger] reaches(s, p, p) by {
        lemma_reaches_refl(dep_edge(s), rep_mask(s), p);
    }
    assert forall|p: int, q: int, r: int| #[trigger] reaches(s, p, q) && #[trigger] reaches(s, q, r) implies reaches(
        s,
        p,
        r,
    ) by {
        lemma_reaches_trans(dep_edge(s), rep_mask(s), p, q, r);
    }
}

/// The kept positions that depend on nothing not yet emitted.
pub open spec fn available(s: Seq<TaskNode>, emitted: Seq<bool>, p: int) -> bool {
    forall|a: int| 0 <= a < s.len() && #[trigger] strictly_before(s, a, p) ==> emitted[a]
}

/// The positions that reach `q`.
pub open spec fn ancestors(s: Seq<TaskNode>, q: int) -> Seq<bool> {
    Seq::new(s.len(), |a: int| reaches(s, a, q))
}

/// While some kept position is not emitted, some kept position that is not
/// emitted depends on nothing unemitted.
pub proof fn lemma_some_available(s: Seq<TaskNode>, emitted: Seq<bool>, q: int)
    requires
        emitted.len() == s.len(),
        is_rep(s, q),
        !emitted[q],
    ensures
        exists|p: int| is_rep(s, p) && !emitted[p] && #[trigger] available(s, emitted, p),
    decreases count_true(ancestors(s, q)),
{
    lemma_reaches_facts(s);
    if !available(s, emitted, q) {
        let a = choose|a: int| 0 <= a < s.len() && #[trigger] strictly_before(s, a, q) && !emitted[a];
        assert forall|x: int| 0 <= x < s.len() && #[trigger] ancestors(s, a)[x] implies ancestors(s, q)[x] by {
            assert(reaches(s, x, a));
        }
        assert(!ancestors(s, a)[q] && ancestors(s, q)[q]);
        lemma_count_true_mono(ancestors(s, a), ancestors(s, q));
        lemma_some_available(s, emitted, a);
    }
}


/// Marks the positions that hold the last occurrence of their task ID.
pub(crate) fn rep_flags(nodes: &Vec<&TaskNode>) -> (r: Vec<bool>)
    ensures
        r@ == rep_mask(deref_nodes(nodes@)),
{
    let ghost s = deref_nodes(nodes@);
    let n = nodes.len();
    let mut r: Vec<bool> = Vec::new();
    let mut p: usize = 0;
    while p < n
        invariant
            n == nodes.len(),
            s == deref_nodes(nodes@),
            p <= n,
            r.len() == p,
            forall|k: int| 0 <= k < p ==> r@[k] == is_rep(s, k),
        decreases n - p,
    {
        let mut keep = true;
        let mut q: usize = p + 1;
        while q < n
            invariant
                n == nodes.len(),
                s == deref_nodes(nodes@),
                p < n,
                p < q <= n,
                keep == (forall|x: int| p < x < q ==> #[trigger] id_of(s[x]) != id_of(s[p as int])),
            decreases n - q,
        {
            if same_str(nodes[q].frontmatter.id.as_str(), nodes[p].frontmatter.id.as_str()) {
                assert(id_of(s[q as int]) == id_of(s[p as int]));
                keep = false;
            }
            q = q + 1;
        }
        r.push(keep);
        p = p + 1;
    }
    assert(r@ =~= rep_mask(s));
    r
}

/// `mat[p][q]` tells whether `q` depends on `p`, for every pair of positions.
pub(crate) fn reach_matrix(nodes: &Vec<&TaskNode>, adj: &Vec<Vec<usize>>, reps: &Vec<bool>) -> (mat: Vec<Vec<bool>>)
    requires
        adj_matches_nodes(adj.deep_view(), deref_nodes(nodes@)),
        reps@ == rep_mask(deref_nodes(nodes@)),
    ensures
        mat.len() == nodes.len(),
        forall|p: int| 0 <= p < nodes.len() ==> (#[trigger] mat@[p]).len() == nodes.len(),
        forall|p: int, q: int|
            0 <= p < nodes.len() && 0 <= q < nodes.len() ==> (mat@[p]@[q] <==> reaches(deref_nodes(nodes@), p, q)),
{
    let ghost s = deref_nodes(nodes@);
    let n = nodes.len();
    let mut mat: Vec<Vec<bool>> = Vec::new();
    let mut p: usize = 0;
    while p < n
        invariant
            n == nodes.len(),
            s == deref_nodes(nodes@),
            adj_matches_nodes(adj.deep_view(), s),
            reps@ == rep_mask(s),
            p <= n,
            mat.len() == p,
            forall|a: int| 0 <= a < p ==> (#[trigger] mat@[a]).len() == n,
            forall|a: int, q: int| 0 <= a < p && 0 <= q < n ==> (mat@[a]@[q] <==> reaches(s, a, q)),
        decreases n - p,
    {
        let mut init: Vec<bool> = Vec::new();
        let mut j: usize = 0;
        while j < n
            invariant
                j <= n,
                init.len() == j,
                forall|k: int| 0 <= k < j ==> init@[k] == (k == p),
            decreases n - j,
        {
            init.push(j == p);
            j = j + 1;
        }
        assert(init@ =~= single(n as nat, p as int));
        let row = reach_from(adj, Ghost(dep_edge(s)), reps, &init);
        mat.push(row);
        p = p + 1;
    }
    mat
}

/// The successor lists hold exactly the dependency edges of `s`.
pub open spec fn adj_matches_nodes(adj: Seq<Seq<usize>>, s: Seq<TaskNode>) -> bool {
    crate::reach::adj_matches(adj, dep_edge(s), s.len() as int)
}

/// The blocking count and effective priority, in the graph, of every listed task.
fn counts_of(graph: &TaskGraph, nodes: &Vec<&TaskNode>) -> (c: Vec<RankInfo>)
    ensures
        c.len() == nodes.len(),
        forall|p: int| 0 <= p < nodes.len() ==> rank_ok(graph.nodes@, *nodes@[p], c@[p]),
{
    let mut c: Vec<RankInfo> = Vec::new();
    let mut p: usize = 0;
    while p < nodes.len()
        invariant
            p <= nodes.len(),
            c.len() == p,
            forall|k: int| 0 <= k < p ==> rank_ok(graph.nodes@, *nodes@[k], c@[k]),
        decreases nodes.len() - p,
    {
        c.push(graph.rank_info(nodes[p]));
        p = p + 1;
    }
    c
}

/// The best-ranked member of `p`'s component.
pub open spec fn is_scc_min(g: Seq<TaskNode>, s: Seq<TaskNode>, p: int, m: int) -> bool {
    &&& same_scc(s, p, m)
    &&& forall|q: int| #[trigger] same_scc(s, p, q) ==> q == m || next_before(g, s[m], s[q])
}

/// For every kept position, the best-ranked member of its component.
fn scc_mins(
    Ghost(g): Ghost<Seq<TaskNode>>,
    nodes: &Vec<&TaskNode>,
    counts: &Vec<RankInfo>,
    reps: &Vec<bool>,
    mat: &Vec<Vec<bool>>,
) -> (m: Vec<usize>)
    requires
        counts.len() == nodes.len(),
        forall|p: int| 0 <= p < nodes.len() ==> rank_ok(g, *nodes@[p], counts@[p]),
        reps@ == rep_mask(deref_nodes(nodes@)),
        mat.len() == nodes.len(),
        forall|p: int| 0 <= p < nodes.len() ==> (#[trigger] mat@[p]).len() == nodes.len(),
        forall|p: int, q: int|
            0 <= p < nodes.len() && 0 <= q < nodes.len() ==> (mat@[p]@[q] <==> reaches(deref_nodes(nodes@), p, q)),
    ensures
        m.len() == nodes.len(),
        forall|p: int| is_rep(deref_nodes(nodes@), p) ==> #[trigger] is_scc_min(g, deref_nodes(nodes@), p, m@[p] as int),
{
    let ghost s = deref_nodes(nodes@);
    let n = nodes.len();
    proof {
        lemma_reaches_facts(s);
    }
    let mut m: Vec<usize> = Vec::new();
    let mut p: usize = 0;
    while p < n
        invariant
            n == nodes.len(),
            s == deref_nodes(nodes@),
            counts.len() == n,
            forall|x: int| 0 <= x < n ==> rank_ok(g, *nodes@[x], counts@[x]),
            reps@ == rep_mask(s),
            mat.len() == n,
            forall|x: int| 0 <= x < n ==> (#[trigger] mat@[x]).len() == n,
            forall|x: int, q: int| 0 <= x < n && 0 <= q < n ==> (mat@[x]@[q] <==> reaches(s, x, q)),
            forall|x: int| #[trigger] reaches(s, x, x) ==> is_rep(s, x),
            forall|x: int| is_rep(s, x) ==> #[trigger] reaches(s, x, x),
            forall|x: int, q: int| #[trigger] reaches(s, x, q) ==> is_rep(s, x) && is_rep(s, q),
            forall|x: int, q: int, r: int| #[trigger] reaches(s, x, q) && #[trigger] reaches(s, q, r) ==> reaches(s, x, r),
            p <= n,
            m.len() == p,
            forall|x: int| 0 <= x < p && is_rep(s, x) ==> #[trigger] is_scc_min(g, s, x, m@[x] as int),
        decreases n - p,
    {
        let mut cur: usize = p;
        if reps[p] {
            let mut q: usize = 0;
            while q < n
                invariant
                    n == nodes.len(),
                    s == deref_nodes(nodes@),
                    counts.len() == n,
                    forall|x: int| 0 <= x < n ==> rank_ok(g, *nodes@[x], counts@[x]),
                    reps@ == rep_mask(s),
                    mat.len() == n,
                    forall|x: int| 0 <= x < n ==> (#[trigger] mat@[x]).len() == n,
                    forall|x: int, y: int| 0 <= x < n && 0 <= y < n ==> (mat@[x]@[y] <==> reaches(s, x, y)),
                    forall|x: int| is_rep(s, x) ==> #[trigger] reaches(s, x, x),
                    forall|x: int, y: int| #[trigger] reaches(s, x, y) ==> is_rep(s, x) && is_rep(s, y),
                    forall|x: int, y: int, z: int| #[trigger] reaches(s, x, y) && #[trigger] reaches(s, y, z) ==> reaches(s, x, z),
                    p < n,
                    is_rep(s, p as int),
                    q <= n,
                    cur < n,
                    same_scc(s, p as int, cur as int),
                    forall|y: int| 0 <= y < q && #[trigger] same_scc(s, p as int, y) ==> y == cur || next_before(g, s[cur as int], s[y]),
                decreases n - q,
            {
                if reps[q] && mat[p][q] && mat[q][p] {
                    let better = key_less(Ghost(g), nodes[q], counts[q], nodes[cur], counts[cur]);
                    proof {
                        assert(*nodes@[q as int] == s[q as int]);
                        assert(*nodes@[cur as int] == s[cur as int]);
                        lemma_next_key_flip(g, s[q as int], s[cur as int]);
                        if q != cur {
                            lemma_reps_distinct(s, q as int, cur as int);
                        }
                    }
                    if better {
                        proof {
                            assert forall|y: int| 0 <= y < q + 1 && #[trigger] same_scc(s, p as int, y) implies y == q
                                || next_before(g, s[q as int], s[y]) by {
                                if y < q && y != cur {
                                    lemma_next_key_trans(g, s[q as int], s[cur as int], s[y]);
                                }
                            }
                        }
                        cur = q;
                    }
                }
                q = q + 1;
            }
            proof {
                assert forall|y: int| #[trigger] same_scc(s, p as int, y) implies y == cur || next_before(g, s[cur as int], s[y]) by {
                    assert(is_rep(s, y));
                }
            }
        }
        m.push(cur);
        p = p + 1;
    }
    m
}

/// `pos` is an emitted prefix of the default order, and `emitted` marks its
/// positions: whole components, closed under prerequisites, in a valid order.
pub open spec fn prefix_ok(g: Seq<TaskNode>, s: Seq<TaskNode>, pos: Seq<usize>, emitted: Seq<bool>) -> bool {
    &&& s.len() <= usize::MAX
    &&& emitted.len() == s.len()
    &&& forall|p: int| 0 <= p < s.len() ==> (emitted[p] <==> #[trigger] pos.contains(p as usize))
    &&& pos.no_duplicates()
    &&& forall|k: int| 0 <= k < pos.len() ==> is_rep(s, #[trigger] pos[k] as int)
    &&& forall|p: int, q: int| 0 <= p < s.len() && emitted[p] && #[trigger] same_scc(s, p, q) ==> emitted[q]
    &&& forall|a: int, q: int| 0 <= q < s.len() && emitted[q] && #[trigger] strictly_before(s, a, q) ==> emitted[a]
    &&& forall|k1: int, k2: int, k3: int|
        0 <= k1 < k2 < k3 < pos.len() && same_scc(s, #[trigger] pos[k1] as int, #[trigger] pos[k3] as int)
            ==> same_scc(s, pos[k1] as int, #[trigger] pos[k2] as int)
    &&& forall|k1: int, k2: int|
        0 <= k1 < k2 < pos.len() ==> !strictly_before(s, #[trigger] pos[k2] as int, #[trigger] pos[k1] as int)
    &&& forall|k1: int, k2: int|
        0 <= k1 < k2 < pos.len() && same_scc(s, #[trigger] pos[k1] as int, #[trigger] pos[k2] as int)
            ==> cycle_before(s[pos[k1] as int], s[pos[k2] as int])
    &&& forall|k: int| 0 <= k < pos.len() && #[trigger] block_start(s, pos, k) ==> greedy_at(g, s, pos, k)
}

/// The reach facts of `lemma_reaches_facts`, as one predicate.
pub open spec fn reach_facts(s: Seq<TaskNode>) -> bool {
    &&& forall|p: int, q: int| #[trigger] reaches(s, p, q) ==> is_rep(s, p) && is_rep(s, q)
    &&& forall|p: int| is_rep(s, p) ==> #[trigger] reaches(s, p, p)
    &&& forall|p: int, q: int, r: int| #[trigger] reaches(s, p, q) && #[trigger] reaches(s, q, r) ==> reaches(s, p, r)
}

/// `ms` lists the members of `b`'s component, each once.
pub open spec fn members_of(s: Seq<TaskNode>, b: int, ms: Seq<usize>) -> bool {
    &&& ms.no_duplicates()
    &&& forall|x: usize| #[trigger] ms.contains(x) <==> (x < s.len() && same_scc(s, b, x as int))
}

/// The marks after emitting `b`'s component.
pub open spec fn emitted_with(s: Seq<TaskNode>, emitted: Seq<bool>, b: int) -> Seq<bool> {
    Seq::new(s.len(), |p: int| emitted[p] || same_scc(s, b, p))
}

/// The order inside a cycle, on positions of `s`.
pub open spec fn cycle_lt(s: Seq<TaskNode>) -> spec_fn(usize, usize) -> bool {
    |a: usize, b: usize| cycle_before(s[a as int], s[b as int])
}

/// What emitting the component of `b` needs: `b` is a kept, unemitted,
/// available position whose component's best task ranks no worse than that of
/// any other such position.
pub open spec fn step_ok(
    g: Seq<TaskNode>,
    s: Seq<TaskNode>,
    emitted: Seq<bool>,
    mins: Seq<usize>,
    b: int,
) -> bool {
    &&& 0 <= b < s.len()
    &&& is_rep(s, b)
    &&& !emitted[b]
    &&& available(s, emitted, b)
    &&& mins.len() == s.len()
    &&& forall|x: int| is_rep(s, x) ==> #[trigger] is_scc_min(g, s, x, mins[x] as int)
    &&& forall|x: int|
        0 <= x < s.len() && is_rep(s, x) && !emitted[x] && #[trigger] available(s, emitted, x) ==> !next_before(
            g,
            s[mins[x] as int],
            s[mins[b] as int],
        )
}

/// Emitting a component keeps the marks in step with the positions, the
/// positions distinct and kept, and the marks closed under components and
/// prerequisites.
proof fn lemma_emit_structure(
    g: Seq<TaskNode>,
    s: Seq<TaskNode>,
    pos: Seq<usize>,
    emitted: Seq<bool>,
    mins: Seq<usize>,
    b: int,
    ms: Seq<usize>,
)
    requires
        prefix_ok(g, s, pos, emitted),
        reach_facts(s),
        step_ok(g, s, emitted, mins, b),
        members_of(s, b, ms),
    ensures
        ({
            let e2 = emitted_with(s, emitted, b);
            let p2 = pos + ms;
            &&& e2.len() == s.len()
            &&& forall|p: int| 0 <= p < s.len() ==> (e2[p] <==> #[trigger] p2.contains(p as usize))
            &&& p2.no_duplicates()
            &&& forall|k: int| 0 <= k < p2.len() ==> is_rep(s, #[trigger] p2[k] as int)
            &&& forall|p: int, q: int| 0 <= p < s.len() && e2[p] && #[trigger] same_scc(s, p, q) ==> e2[q]
            &&& forall|a: int, q: int| 0 <= q < s.len() && e2[q] && #[trigger] strictly_before(s, a, q) ==> e2[a]
        }),
{
    let e2 = emitted_with(s, emitted, b);
    let p2 = pos + ms;
    assert forall|x: usize| #[trigger] ms.contains(x) implies !emitted[x as int] by {
        if emitted[x as int] {
            assert(same_scc(s, x as int, b));
        }
    }
    assert forall|p: int| 0 <= p < s.len() implies (e2[p] <==> #[trigger] p2.contains(p as usize)) by {
        if p2.contains(p as usize) {
            let k = choose|k: int| 0 <= k < p2.len() && p2[k] == p as usize;
            if k < pos.len() {
                assert(pos[k] == p as usize);
                assert(pos.contains(p as usize));
            } else {
                assert(ms[k - pos.len()] == p as usize);
                assert(ms.contains(p as usize));
            }
        }
        if emitted[p] {
            assert(pos.contains(p as usize));
            let k = choose|k: int| 0 <= k < pos.len() && pos[k] == p as usize;
            assert(p2[k] == p as usize);
        } else if same_scc(s, b, p) {
            let x = p as usize;
            assert(x < s.len() && same_scc(s, b, x as int));
            assert(ms.contains(x));
            let k = choose|k: int| 0 <= k < ms.len() && ms[k] == p as usize;
            assert(p2[pos.len() + k] == p as usize);
        }
    }
    assert forall|k: int| 0 <= k < pos.len() implies emitted[#[trigger] pos[k] as int] by {
        let p = pos[k] as int;
        assert(is_rep(s, p));
        assert(pos.contains(p as usize));
    }
    assert forall|i: int, j: int| 0 <= i < p2.len() && 0 <= j < p2.len() && i != j implies p2[i] != p2[j] by {
        if i < pos.len() && j < pos.len() {
            assert(p2[i] == pos[i] && p2[j] == pos[j]);
        } else if i >= pos.len() && j >= pos.len() {
            assert(p2[i] == ms[i - pos.len()] && p2[j] == ms[j - pos.len()]);
        } else if i < pos.len() {
            assert(ms.contains(ms[j - pos.len()]));
            assert(emitted[pos[i] as int]);
            assert(p2[i] == pos[i] && p2[j] == ms[j - pos.len()]);
        } else {
            assert(ms.contains(ms[i - pos.len()]));
            assert(emitted[pos[j] as int]);
            assert(p2[j] == pos[j] && p2[i] == ms[i - pos.len()]);
        }
    }
    assert forall|k: int| 0 <= k < p2.len() implies is_rep(s, #[trigger] p2[k] as int) by {
        if k >= pos.len() {
            assert(ms.contains(ms[k - pos.len()]));
        }
    }
    assert forall|a: int, q: int| 0 <= q < s.len() && e2[q] && #[trigger] strictly_before(s, a, q) implies e2[a] by {
        if !emitted[q] {
            assert(reaches(s, a, b));
            if reaches(s, b, a) {
                assert(reaches(s, q, a));
            }
            assert(strictly_before(s, a, b));
            assert(is_rep(s, a));
        }
    }
}

/// Emitting a component keeps components contiguous and prerequisites first.
proof fn lemma_emit_order(
    g: Seq<TaskNode>,
    s: Seq<TaskNode>,
    pos: Seq<usize>,
    emitted: Seq<bool>,
    mins: Seq<usize>,
    b: int,
    ms: Seq<usize>,
)
    requires
        prefix_ok(g, s, pos, emitted),
        reach_facts(s),
        step_ok(g, s, emitted, mins, b),
        members_of(s, b, ms),
        sorted_by(cycle_lt(s), ms),
    ensures
        ({
            let p2 = pos + ms;
            &&& forall|k1: int, k2: int, k3: int|
                0 <= k1 < k2 < k3 < p2.len() && same_scc(s, #[trigger] p2[k1] as int, #[trigger] p2[k3] as int)
                    ==> same_scc(s, p2[k1] as int, #[trigger] p2[k2] as int)
            &&& forall|k1: int, k2: int|
                0 <= k1 < k2 < p2.len() ==> !strictly_before(s, #[trigger] p2[k2] as int, #[trigger] p2[k1] as int)
            &&& forall|k1: int, k2: int|
                0 <= k1 < k2 < p2.len() && same_scc(s, #[trigger] p2[k1] as int, #[trigger] p2[k2] as int)
                    ==> cycle_before(s[p2[k1] as int], s[p2[k2] as int])
        }),
{
    let p2 = pos + ms;
    let n = pos.len();
    assert forall|x: usize| #[trigger] ms.contains(x) implies !emitted[x as int] && same_scc(s, b, x as int) by {
        if emitted[x as int] {
            assert(same_scc(s, x as int, b));
        }
    }
    assert forall|k: int| 0 <= k < n implies emitted[#[trigger] pos[k] as int] by {
        let p = pos[k] as int;
        assert(is_rep(s, p));
        assert(pos.contains(p as usize));
    }
    assert forall|k: int| n <= k < p2.len() implies #[trigger] ms.contains(p2[k]) by {
        assert(p2[k] == ms[k - n]);
    }
    assert forall|k1: int, k2: int, k3: int|
        0 <= k1 < k2 < k3 < p2.len() && same_scc(s, #[trigger] p2[k1] as int, #[trigger] p2[k3] as int) implies same_scc(
        s,
        p2[k1] as int,
        #[trigger] p2[k2] as int,
    ) by {
        if k3 < n {
            assert(p2[k1] == pos[k1] && p2[k2] == pos[k2] && p2[k3] == pos[k3]);
        } else if k1 < n {
            assert(ms.contains(p2[k3]));
            assert(emitted[pos[k1] as int]);
            assert(p2[k1] == pos[k1]);
        } else {
            assert(ms.contains(p2[k1]) && ms.contains(p2[k2]));
        }
    }
    assert forall|k1: int, k2: int| 0 <= k1 < k2 < p2.len() implies !strictly_before(
        s,
        #[trigger] p2[k2] as int,
        #[trigger] p2[k1] as int,
    ) by {
        if k2 < n {
            assert(p2[k1] == pos[k1] && p2[k2] == pos[k2]);
        } else if k1 < n {
            assert(ms.contains(p2[k2]));
            assert(emitted[pos[k1] as int]);
            assert(p2[k1] == pos[k1]);
        } else {
            assert(ms.contains(p2[k1]) && ms.contains(p2[k2]));
        }
    }
    assert forall|k1: int, k2: int|
        0 <= k1 < k2 < p2.len() && same_scc(s, #[trigger] p2[k1] as int, #[trigger] p2[k2] as int) implies cycle_before(
        s[p2[k1] as int],
        s[p2[k2] as int],
    ) by {
        if k2 < n {
            assert(p2[k1] == pos[k1] && p2[k2] == pos[k2]);
        } else if k1 < n {
            assert(ms.contains(p2[k2]));
            assert(emitted[pos[k1] as int]);
            assert(p2[k1] == pos[k1]);
        } else {
            assert(p2[k1] == ms[k1 - n] && p2[k2] == ms[k2 - n]);
            assert(cycle_lt(s)(ms[k1 - n], ms[k2 - n]));
        }
    }
}

/// Emitting a component keeps every component boundary a greedy choice.
proof fn lemma_emit_greedy(
    g: Seq<TaskNode>,
    s: Seq<TaskNode>,
    pos: Seq<usize>,
    emitted: Seq<bool>,
    mins: Seq<usize>,
    b: int,
    ms: Seq<usize>,
)
    requires
        prefix_ok(g, s, pos, emitted),
        reach_facts(s),
        step_ok(g, s, emitted, mins, b),
        members_of(s, b, ms),
    ensures
        forall|k: int| 0 <= k < (pos + ms).len() && #[trigger] block_start(s, pos + ms, k) ==> greedy_at(g, s, pos + ms, k),
{
    let p2 = pos + ms;
    let n = pos.len();
    assert forall|x: usize| #[trigger] ms.contains(x) implies !emitted[x as int] && same_scc(s, b, x as int) by {
        if emitted[x as int] {
            assert(same_scc(s, x as int, b));
        }
    }
    assert forall|k: int| 0 <= k < p2.len() && #[trigger] block_start(s, p2, k) implies greedy_at(g, s, p2, k) by {
        if k < n {
            assert(p2.take(k) =~= pos.take(k));
            assert(p2[k] == pos[k]);
            if k > 0 {
                assert(p2[k - 1] == pos[k - 1]);
            }
            assert(block_start(s, pos, k));
        } else if k > n {
            assert(p2[k - 1] == ms[k - 1 - n] && p2[k] == ms[k - n]);
            assert(ms.contains(ms[k - 1 - n]) && ms.contains(ms[k - n]));
            assert(same_scc(s, p2[k - 1] as int, p2[k] as int));
        } else {
            assert(p2.take(k) =~= pos);
            let c = p2[k] as int;
            assert(p2[k] == ms[0]);
            assert(ms.contains(ms[0]));
            let mb = mins[b] as int;
            assert(is_scc_min(g, s, b, mb));
            assert(same_scc(s, c, mb));
            assert forall|q: int|
                is_rep(s, q) && !p2.take(k).contains(q as usize) && !same_scc(s, p2[k] as int, q) && ready_after(
                    s,
                    p2.take(k),
                    q,
                ) implies #[trigger] scc_before(g, s, p2[k] as int, q) by {
                assert(0 <= q < s.len());
                assert(!emitted[q]);
                assert(available(s, emitted, q)) by {
                    assert forall|a: int| 0 <= a < s.len() && #[trigger] strictly_before(s, a, q) implies emitted[a] by {
                        assert(pos.contains(a as usize));
                    }
                }
                let mq = mins[q] as int;
                assert(is_scc_min(g, s, q, mq));
                assert(!next_before(g, s[mq], s[mb]));
                assert(mq != mb) by {
                    if mq == mb {
                        assert(same_scc(s, b, q));
                    }
                }
                assert(is_rep(s, mq) && is_rep(s, mb));
                lemma_reps_distinct(s, mq, mb);
                lemma_next_key_flip(g, s[mq], s[mb]);
                assert(next_before(g, s[mb], s[mq]));
                assert forall|y: int| #[trigger] same_scc(s, q, y) implies next_before(g, s[mb], s[y]) by {
                    if y != mq {
                        lemma_next_key_trans(g, s[mb], s[mq], s[y]);
                    }
                }
                assert(same_scc(s, c, mb));
            }
        }
    }
}

/// Emitting the component of a well-chosen `b` extends a valid prefix.
proof fn lemma_emit_step(
    g: Seq<TaskNode>,
    s: Seq<TaskNode>,
    pos: Seq<usize>,
    emitted: Seq<bool>,
    mins: Seq<usize>,
    b: int,
    ms: Seq<usize>,
)
    requires
        prefix_ok(g, s, pos, emitted),
        reach_facts(s),
        step_ok(g, s, emitted, mins, b),
        members_of(s, b, ms),
        sorted_by(cycle_lt(s), ms),
    ensures
        prefix_ok(g, s, pos + ms, emitted_with(s, emitted, b)),
{
    lemma_emit_structure(g, s, pos, emitted, mins, b, ms);
    lemma_emit_order(g, s, pos, emitted, mins, b, ms);
    lemma_emit_greedy(g, s, pos, emitted, mins, b, ms);
}

/// A valid prefix that holds every kept position is the default order.
proof fn lemma_prefix_complete(g: Seq<TaskNode>, s: Seq<TaskNode>, pos: Seq<usize>, emitted: Seq<bool>)
    requires
        prefix_ok(g, s, pos, emitted),
        forall|p: int| is_rep(s, p) ==> emitted[p],
    ensures
        is_default_order(g, s, pos),
{
    assert forall|p: int| is_rep(s, p) implies #[trigger] pos.contains(p as usize) by {
        assert(emitted[p]);
    }
}

/// Whether every position that `p` strictly depends on is emitted.
fn is_available(Ghost(s): Ghost<Seq<TaskNode>>, mat: &Vec<Vec<bool>>, emitted: &Vec<bool>, p: usize) -> (r: bool)
    requires
        p < s.len(),
        mat.len() == s.len(),
        emitted.len() == s.len(),
        forall|x: int| 0 <= x < s.len() ==> (#[trigger] mat@[x]).len() == s.len(),
        forall|x: int, y: int| 0 <= x < s.len() && 0 <= y < s.len() ==> (mat@[x]@[y] <==> reaches(s, x, y)),
    ensures
        r == available(s, emitted@, p as int),
{
    let mut a: usize = 0;
    while a < emitted.len()
        invariant
            p < s.len(),
            mat.len() == s.len(),
            emitted.len() == s.len(),
            forall|x: int| 0 <= x < s.len() ==> (#[trigger] mat@[x]).len() == s.len(),
            forall|x: int, y: int| 0 <= x < s.len() && 0 <= y < s.len() ==> (mat@[x]@[y] <==> reaches(s, x, y)),
            a <= s.len(),
            forall|x: int| 0 <= x < a && #[trigger] strictly_before(s, x, p as int) ==> emitted@[x],
        decreases s.len() - a,
    {
        if mat[a][p] && !mat[p][a] && !emitted[a] {
            assert(strictly_before(s, a as int, p as int));
            return false;
        }
        a = a + 1;
    }
    true
}

/// The members of `b`'s component, in increasing position order.
pub(crate) fn scc_members(Ghost(s): Ghost<Seq<TaskNode>>, mat: &Vec<Vec<bool>>, b: usize) -> (ms: Vec<usize>)
    requires
        b < s.len(),
        mat.len() == s.len(),
        forall|x: int| 0 <= x < s.len() ==> (#[trigger] mat@[x]).len() == s.len(),
        forall|x: int, y: int| 0 <= x < s.len() && 0 <= y < s.len() ==> (mat@[x]@[y] <==> reaches(s, x, y)),
        reach_facts(s),
    ensures
        members_of(s, b as int, ms@),
        forall|k: int| 0 <= k < ms.len() ==> (#[trigger] ms@[k]) < s.len(),
{
    let mut ms: Vec<usize> = Vec::new();
    let mut q: usize = 0;
    while q < mat.len()
        invariant
            b < s.len(),
            mat.len() == s.len(),
            forall|x: int| 0 <= x < s.len() ==> (#[trigger] mat@[x]).len() == s.len(),
            forall|x: int, y: int| 0 <= x < s.len() && 0 <= y < s.len() ==> (mat@[x]@[y] <==> reaches(s, x, y)),
            q <= s.len(),
            forall|k: int| 0 <= k < ms.len() ==> (#[trigger] ms@[k]) < q,
            forall|k1: int, k2: int| 0 <= k1 < k2 < ms.len() ==> ms@[k1] < ms@[k2],
            forall|x: usize| #[trigger] ms@.contains(x) <==> (x < q && same_scc(s, b as int, x as int)),
        decreases s.len() - q,
    {
        let ghost old_ms = ms@;
        let inside = mat[b][q] && mat[q][b];
        assert(inside == same_scc(s, b as int, q as int));
        if inside {
            ms.push(q);
        }
        proof {
            assert forall|x: usize| #[trigger] ms@.contains(x) <==> (x < q + 1 && same_scc(s, b as int, x as int)) by {
                if ms@.contains(x) {
                    let k = choose|k: int| 0 <= k < ms@.len() && ms@[k] == x;
                    if k < old_ms.len() {
                        assert(old_ms[k] == x);
                        assert(old_ms.contains(x));
                    } else {
                        assert(inside);
                        assert(x == q);
                    }
                }
                if x < q + 1 && same_scc(s, b as int, x as int) {
                    if x < q {
                        assert(old_ms.contains(x));
                        let k = choose|k: int| 0 <= k < old_ms.len() && old_ms[k] == x;
                        assert(ms@[k] == x);
                    } else {
                        assert(ms@[old_ms.len() as int] == x);
                    }
                }
            }
        }
        q = q + 1;
    }
    assert(ms@.no_duplicates()) by {
        assert forall|i: int, j: int| 0 <= i < ms.len() && 0 <= j < ms.len() && i != j implies ms@[i] != ms@[j] by {
            if i < j {
                assert(ms@[i] < ms@[j]);
            } else {
                assert(ms@[j] < ms@[i]);
            }
        }
    }
    ms
}

/// Whether task `a` comes strictly before task `b` inside a cycle.
pub fn cycle_less(a: &TaskNode, b: &TaskNode) -> (r: bool)
    ensures
        r == cycle_before(*a, *b),
{
    let t = order_opt_time(a.frontmatter.created_at, b.frontmatter.created_at);
    if t != Order::Equal {
        t == Order::Less
    } else {
        order_strs(a.frontmatter.id.as_str(), b.frontmatter.id.as_str()) == Order::Less
    }
}

/// The kept positions that are not yet emitted.
pub open spec fn remaining(s: Seq<TaskNode>, emitted: Seq<bool>) -> Seq<bool> {
    Seq::new(s.len(), |p: int| is_rep(s, p) && !emitted[p])
}

/// Sorts the members of a component by creation time, then ID.
fn sort_members(Ghost(s): Ghost<Seq<TaskNode>>, nodes: &Vec<&TaskNode>, ms: &Vec<usize>) -> (r: Vec<usize>)
    requires
        s == deref_nodes(nodes@),
        ms@.no_duplicates(),
        forall|k: int| 0 <= k < ms.len() ==> (#[trigger] ms@[k]) < s.len(),
        forall|k: int| 0 <= k < ms.len() ==> is_rep(s, #[trigger] ms@[k] as int),
    ensures
        same_elements(r@, ms@),
        sorted_by(cycle_lt(s), r@),
{
    let ghost lt = cycle_lt(s);
    proof {
        assert forall|a: usize| #[trigger] ms@.contains(a) implies !lt(a, a) by {
            lemma_cycle_flip(s[a as int], s[a as int]);
        }
        assert forall|a: usize, b: usize| ms@.contains(a) && ms@.contains(b) && a != b implies #[trigger] lt(a, b)
            || #[trigger] lt(b, a) by {
            let ka = choose|k: int| 0 <= k < ms.len() && ms@[k] == a;
            let kb = choose|k: int| 0 <= k < ms.len() && ms@[k] == b;
            assert(is_rep(s, ms@[ka] as int) && is_rep(s, ms@[kb] as int));
            lemma_reps_distinct(s, a as int, b as int);
            lemma_cycle_flip(s[a as int], s[b as int]);
        }
        assert forall|a: usize, b: usize, c: usize|
            ms@.contains(a) && ms@.contains(b) && ms@.contains(c) && #[trigger] lt(a, b) && #[trigger] lt(b, c) implies lt(
            a,
            c,
        ) by {
            lemma_cycle_trans(s[a as int], s[b as int], s[c as int]);
        }
    }
    let less = |a: usize, b: usize| -> (o: bool)
        requires
            a < nodes.len(),
            b < nodes.len(),
        ensures
            o == cycle_before(*nodes@[a as int], *nodes@[b as int]),
        { cycle_less(nodes[a], nodes[b]) };
    proof {
        assert forall|a: usize, b: usize| ms@.contains(a) && ms@.contains(b) implies #[trigger] less.requires((a, b)) by {
            let ka = choose|k: int| 0 <= k < ms.len() && ms@[k] == a;
            let kb = choose|k: int| 0 <= k < ms.len() && ms@[k] == b;
            assert(ms@[ka] < s.len() && ms@[kb] < s.len());
        }
    }
    sort_by_less(ms, &less, Ghost(lt))
}

/// The positions of `nodes` in the default order, with blocking counts taken
/// from `graph`; see [`is_default_order`].
pub fn default_order_positions(graph: &TaskGraph, nodes: &Vec<&TaskNode>) -> (pos: Vec<usize>)
    ensures
        is_default_order(graph.nodes@, deref_nodes(nodes@), pos@),
{
    let ghost s = deref_nodes(nodes@);
    let ghost g = graph.nodes@;
    let n = nodes.len();
    proof {
        lemma_reaches_facts(s);
    }
    let adj = dependents_lists(nodes);
    let reps = rep_flags(nodes);
    let mat = reach_matrix(nodes, &adj, &reps);
    let counts = counts_of(graph, nodes);
    let mins = scc_mins(Ghost(g), nodes, &counts, &reps, &mat);
    let mut emitted: Vec<bool> = Vec::new();
    let mut i: usize = 0;
    while i < n
        invariant
            i <= n,
            emitted.len() == i,
            forall|k: int| 0 <= k < i ==> !emitted@[k],
        decreases n - i,
    {
        emitted.push(false);
        i = i + 1;
    }
    let mut pos: Vec<usize> = Vec::new();
    proof {
        assert(prefix_ok(g, s, pos@, emitted@)) by {
            assert forall|p: int| 0 <= p < s.len() implies (emitted@[p] <==> #[trigger] pos@.contains(p as usize)) by {
            }
        }
    }
    loop
        invariant
            n == nodes.len(),
            s == deref_nodes(nodes@),
            g == graph.nodes@,
            reach_facts(s),
            reps@ == rep_mask(s),
            mat.len() == n,
            forall|x: int| 0 <= x < n ==> (#[trigger] mat@[x]).len() == n,
            forall|x: int, y: int| 0 <= x < n && 0 <= y < n ==> (mat@[x]@[y] <==> reaches(s, x, y)),
            counts.len() == n,
            forall|x: int| 0 <= x < n ==> rank_ok(g, *nodes@[x], counts@[x]),
            mins.len() == n,
            forall|x: int| is_rep(s, x) ==> #[trigger] is_scc_min(g, s, x, mins@[x] as int),
            prefix_ok(g, s, pos@, emitted@),
        ensures
            prefix_ok(g, s, pos@, emitted@),
            forall|p: int| is_rep(s, p) ==> emitted@[p],
        decreases count_true(remaining(s, emitted@)),
    {
        let mut best: usize = n;
        let mut p: usize = 0;
        while p < n
            invariant
                n == nodes.len(),
                s == deref_nodes(nodes@),
                g == graph.nodes@,
                reach_facts(s),
                reps@ == rep_mask(s),
                mat.len() == n,
                forall|x: int| 0 <= x < n ==> (#[trigger] mat@[x]).len() == n,
                forall|x: int, y: int| 0 <= x < n && 0 <= y < n ==> (mat@[x]@[y] <==> reaches(s, x, y)),
                counts.len() == n,
                forall|x: int| 0 <= x < n ==> rank_ok(g, *nodes@[x], counts@[x]),
                mins.len() == n,
                forall|x: int| is_rep(s, x) ==> #[trigger] is_scc_min(g, s, x, mins@[x] as int),
                emitted.len() == n,
                p <= n,
                best == n || (best < p && is_rep(s, best as int) && !emitted@[best as int] && available(
                    s,
                    emitted@,
                    best as int,
                )),
                best == n ==> forall|x: int|
                    0 <= x < p && is_rep(s, x) && !emitted@[x] ==> !#[trigger] available(s, emitted@, x),
                best < n ==> forall|x: int|
                    0 <= x < p && is_rep(s, x) && !emitted@[x] && #[trigger] available(s, emitted@, x) ==> !next_before(
                        g,
                        s[mins@[x] as int],
                        s[mins@[best as int] as int],
                    ),
            decreases n - p,
        {
            if reps[p] && !emitted[p] && is_available(Ghost(s), &mat, &emitted, p) {
                assert(is_scc_min(g, s, p as int, mins@[p as int] as int));
                let mp = mins[p];
                assert(is_rep(s, mp as int));
                let ghost old_best = best;
                if best == n {
                    proof {
                        lemma_next_key_flip(g, s[mp as int], s[mp as int]);
                    }
                    best = p;
                } else {
                    assert(is_scc_min(g, s, best as int, mins@[best as int] as int));
                    let mb = mins[best];
                    assert(is_rep(s, mb as int));
                    if key_less(Ghost(g), nodes[mp], counts[mp], nodes[mb], counts[mb]) {
                        proof {
                            lemma_next_key_flip(g, s[mp as int], s[mp as int]);
                            assert forall|x: int|
                                0 <= x < p + 1 && is_rep(s, x) && !emitted@[x] && #[trigger] available(s, emitted@, x)
                                    implies !next_before(g, s[mins@[x] as int], s[mp as int]) by {
                                if x < p && next_before(g, s[mins@[x] as int], s[mp as int]) {
                                    lemma_next_key_trans(g, s[mins@[x] as int], s[mp as int], s[mb as int]);
                                }
                            }
                        }
                        best = p;
                    }
                }
            }
            p = p + 1;
        }
        if best == n {
            proof {
                assert forall|q: int| is_rep(s, q) implies emitted@[q] by {
                    if !emitted@[q] {
                        lemma_some_available(s, emitted@, q);
                        let x = choose|x: int| is_rep(s, x) && !emitted@[x] && #[trigger] available(s, emitted@, x);
                    }
                }
            }
            break;
        }
        let ms = scc_members(Ghost(s), &mat, best);
        proof {
            assert forall|k: int| 0 <= k < ms.len() implies is_rep(s, #[trigger] ms@[k] as int) by {
                assert(ms@.contains(ms@[k]));
            }
        }
        let mut sorted = sort_members(Ghost(s), nodes, &ms);
        proof {
            assert(members_of(s, best as int, sorted@)) by {
                assert forall|x: usize| #[trigger] sorted@.contains(x) <==> (x < s.len() && same_scc(s, best as int, x as int)) by {
                    assert(sorted@.contains(x) <==> ms@.contains(x));
                }
            }
            assert(step_ok(g, s, emitted@, mins@, best as int));
            lemma_emit_step(g, s, pos@, emitted@, mins@, best as int, sorted@);
        }
        let ghost old_emitted = emitted@;
        let mut k: usize = 0;
        while k < sorted.len()
            invariant
                n == nodes.len(),
                s == deref_nodes(nodes@),
                emitted.len() == n,
                members_of(s, best as int, sorted@),
                k <= sorted.len(),
                forall|x: int| 0 <= x < n ==> #[trigger] emitted@[x] == (old_emitted[x] || sorted@.take(k as int).contains(x as usize)),
            decreases sorted.len() - k,
        {
            let x = sorted[k];
            assert(sorted@.contains(x));
            let ghost before = emitted@;
            emitted.set(x, true);
            proof {
                assert(emitted@ == before.update(x as int, true));
                assert(sorted@.take(k + 1) =~= sorted@.take(k as int).push(x));
                assert forall|y: int| 0 <= y < n implies #[trigger] emitted@[y] == (old_emitted[y] || sorted@.take(k + 1).contains(
                    y as usize,
                )) by {
                    let yy = y as usize;
                    crate::sorting::lemma_push_contains(sorted@.take(k as int), x, yy);
                    assert(before[y] == (old_emitted[y] || sorted@.take(k as int).contains(yy)));
                    if y == x as int {
                        assert(emitted@[y]);
                        assert(sorted@.take(k + 1).contains(yy));
                    } else {
                        assert(yy != x);
                        assert(emitted@[y] == before[y]);
                        assert(sorted@.take(k + 1).contains(yy) == sorted@.take(k as int).contains(yy));
                    }
                }
            }
            k = k + 1;
        }
        proof {
            assert(sorted@.take(sorted.len() as int) =~= sorted@);
            assert(emitted@ =~= emitted_with(s, old_emitted, best as int)) by {
                assert forall|y: int| 0 <= y < n implies emitted@[y] == emitted_with(s, old_emitted, best as int)[y] by {
                    let yy = y as usize;
                    assert(sorted@.contains(yy) <==> (yy < s.len() && same_scc(s, best as int, yy as int)));
                }
            }
            assert forall|y: int| 0 <= y < n && #[trigger] remaining(s, emitted@)[y] implies remaining(s, old_emitted)[y] by {
            }
            assert(!remaining(s, emitted@)[best as int] && remaining(s, old_emitted)[best as int]) by {
                crate::reach::lemma_reaches_refl(dep_edge(s), rep_mask(s), best as int);
            }
            lemma_count_true_mono(remaining(s, emitted@), remaining(s, old_emitted));
        }
        pos.append(&mut sorted);
    }
    proof {
        lemma_prefix_complete(g, s, pos@, emitted@);
    }
    pos
}

/// `r` lists the tasks of `nodes` in the default order, with blocking counts
/// from the graph `g`.
pub open spec fn in_default_order(g: Seq<TaskNode>, nodes: Seq<&TaskNode>, r: Seq<&TaskNode>) -> bool {
    exists|pos: Seq<usize>|
        #[trigger] is_default_order(g, deref_nodes(nodes), pos) && r.len() == pos.len() && (forall|k: int|
            0 <= k < pos.len() ==> r[k] == nodes[#[trigger] pos[k] as int])
}

impl TaskGraph {
    /// Orders tasks by the dependency-aware default order (see
    /// [`is_default_order`]); blocking counts come from this graph. When a
    /// task ID occurs several times in `nodes`, its last occurrence is kept.
    pub fn default_order<'a>(&'a self, nodes: Vec<&'a TaskNode>) -> (r: Result<Vec<&'a TaskNode>, String>)
        ensures
            r is Ok,
            r matches Ok(v) ==> in_default_order(self.nodes@, nodes@, v@),
    {
        let pos = default_order_positions(self, &nodes);
        let mut out: Vec<&'a TaskNode> = Vec::new();
        let mut k: usize = 0;
        while k < pos.len()
            invariant
                k <= pos.len(),
                is_default_order(self.nodes@, deref_nodes(nodes@), pos@),
                out.len() == k,
                forall|j: int| 0 <= j < k ==> out@[j] == nodes@[#[trigger] pos@[j] as int],
            decreases pos.len() - k,
        {
            let p = pos[k];
            assert(is_rep(deref_nodes(nodes@), p as int));
            out.push(nodes[p]);
            k = k + 1;
        }
        Ok(out)
    }
}

/// A needed task comes first: in the default order `pos`, when the task at
/// `pos[kb]` needs the task at `pos[ka]` and the two are not on a common
/// dependency cycle, the needed task is listed before it.
pub proof fn lemma_default_order_needs_first(g: Seq<TaskNode>, s: Seq<TaskNode>, pos: Seq<usize>, ka: int, kb: int)
    requires
        is_default_order(g, s, pos),
        0 <= ka < pos.len(),
        0 <= kb < pos.len(),
        crate::graph::needs_id(s[pos[kb] as int], id_of(s[pos[ka] as int])),
        !same_scc(s, pos[ka] as int, pos[kb] as int),
    ensures
        ka < kb,
{
    let a = pos[ka] as int;
    let b = pos[kb] as int;
    assert(is_rep(s, a) && is_rep(s, b));
    let w = seq![a, b];
    assert(dep_edge(s)(a, b));
    assert(crate::reach::is_walk(dep_edge(s), rep_mask(s), single(s.len(), a), w));
    assert(reaches(s, a, b));
    lemma_reaches_facts(s);
    if ka == kb {
        assert(reaches(s, a, a));
    }
    if kb < ka {
        assert(!strictly_before(s, pos[ka] as int, pos[kb] as int));
    }
}

/// The tasks of one dependency cycle stand together in the default order
/// `pos`, by creation time (unset first) and then ID: a task listed between
/// two members of a cycle is a member too, and members come in
/// [`cycle_before`] order.
pub proof fn lemma_default_order_cycles_together(g: Seq<TaskNode>, s: Seq<TaskNode>, pos: Seq<usize>, k1: int, k2: int, k3: int)
    requires
        is_default_order(g, s, pos),
        0 <= k1 < k2 < k3 < pos.len(),
        same_scc(s, pos[k1] as int, pos[k3] as int),
    ensures
        same_scc(s, pos[k1] as int, pos[k2] as int),
        cycle_before(s[pos[k1] as int], s[pos[k3] as int]),
{
}
} // verus!
