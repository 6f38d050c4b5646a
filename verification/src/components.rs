//! The strongly connected components of the dependency graph: groups of
//! tasks that all (transitively) need each other.
use crate::diagnostics::{lemma_all_reps, scc_leader, scc_positions};
use crate::graph::{deref_nodes, dependents_lists, id_of, needs_id, refs_of, TaskGraph};
use crate::models::TaskNode;
use crate::ordering::{ancestors, is_rep, lemma_reaches_facts, reach_facts, reach_matrix, reaches, rep_flags, same_scc};
use crate::reach::{count_true, lemma_count_true_mono};
use crate::sorting::{same_elements, sort_by_less, sorted_by};
use crate::text::contains_str;
use vstd::prelude::*;

verus! {

/// The reachability facts a matrix over the tasks `s` holds.
pub open spec fn reach_matrix_of(s: Seq<TaskNode>, mat: Seq<Vec<bool>>) -> bool {
    &&& mat.len() == s.len()
    &&& forall|x: int| 0 <= x < s.len() ==> (#[trigger] mat[x]).len() == s.len()
    &&& forall|x: int, y: int| 0 <= x < s.len() && 0 <= y < s.len() ==> (mat[x]@[y] <==> reaches(s, x, y))
}

/// Whether position `p` is the first member of its component.
pub(crate) fn is_scc_leader(Ghost(s): Ghost<Seq<TaskNode>>, mat: &Vec<Vec<bool>>, p: usize) -> (r: bool)
    requires
        p < s.len(),
        reach_matrix_of(s, mat@),
    ensures
        r == scc_leader(s, p as int),
{
    let mut q: usize = 0;
    while q < p
        invariant
            q <= p < s.len(),
            reach_matrix_of(s, mat@),
            forall|x: int| 0 <= x < q ==> !#[trigger] same_scc(s, p as int, x),
        decreases p - q,
    {
        if mat[p][q] && mat[q][p] {
            assert(same_scc(s, p as int, q as int));
            return false;
        }
        q = q + 1;
    }
    true
}

/// The members of `p`'s component, in increasing position order.
pub(crate) fn component_positions(Ghost(s): Ghost<Seq<TaskNode>>, mat: &Vec<Vec<bool>>, p: usize) -> (ms: Vec<usize>)
    requires
        p < s.len(),
        reach_matrix_of(s, mat@),
    ensures
        ms@.map_values(|y: usize| y as int) == scc_positions(s, p as int),
        forall|k: int| 0 <= k < ms.len() ==> (#[trigger] ms@[k]) < s.len(),
        forall|a: int, b: int| 0 <= a < b < ms.len() ==> ms@[a] < ms@[b],
{
    let n = mat.len();
    let ghost pred = |x: int| same_scc(s, p as int, x);
    let mut ms: Vec<usize> = Vec::new();
    let mut x: usize = 0;
    while x < n
        invariant
            x <= n,
            p < n,
            n == s.len(),
            reach_matrix_of(s, mat@),
            pred == (|y: int| same_scc(s, p as int, y)),
            ms@.map_values(|y: usize| y as int) == Seq::new(x as nat, |y: int| y).filter(pred),
            forall|k: int| 0 <= k < ms.len() ==> (#[trigger] ms@[k]) < x,
            forall|a: int, b: int| 0 <= a < b < ms.len() ==> ms@[a] < ms@[b],
        decreases n - x,
    {
        proof {
            let t = Seq::new((x + 1) as nat, |y: int| y);
            assert(t.drop_last() =~= Seq::new(x as nat, |y: int| y));
            assert(t.last() == x as int);
            reveal(Seq::filter);
        }
        if mat[p][x] && mat[x][p] {
            let ghost before_ms = ms@;
            ms.push(x);
            assert(ms@.map_values(|y: usize| y as int) =~= before_ms.map_values(|y: usize| y as int).push(x as int));
        }
        x = x + 1;
    }
    assert(Seq::new(n as nat, |y: int| y) =~= Seq::new(s.len(), |q: int| q));
    ms
}

/// The first members of the components, in increasing position order.
pub open spec fn scc_leaders(s: Seq<TaskNode>) -> Seq<int> {
    Seq::new(s.len(), |q: int| q).filter(|p: int| scc_leader(s, p))
}

/// Some listed component holds position `x`.
pub open spec fn listed_in(r: Seq<Vec<usize>>, x: usize) -> bool {
    exists|k: int| 0 <= k < r.len() && #[trigger] r[k]@.contains(x)
}

/// Every task lies in a component with a leader: its first member.
proof fn lemma_leader_exists(s: Seq<TaskNode>, x: int, q: int)
    requires
        reach_facts(s),
        0 <= q,
        same_scc(s, x, q),
    ensures
        exists|l: int| 0 <= l <= q && #[trigger] scc_leader(s, l) && same_scc(s, x, l),
    decreases q,
{
    if !scc_leader(s, q) {
        let q2 = choose|q2: int| 0 <= q2 < q && #[trigger] same_scc(s, q, q2);
        lemma_leader_exists(s, x, q2);
    }
}

/// Listing the component of each leader, once per leader, partitions the
/// tasks: each lies in exactly one listed component.
proof fn lemma_sccs_partition(s: Seq<TaskNode>, r: Seq<Vec<usize>>)
    requires
        reach_facts(s),
        forall|x: int| 0 <= x < s.len() ==> #[trigger] is_rep(s, x),
        forall|k: int|
            0 <= k < r.len() ==> (#[trigger] r[k])@.len() > 0 && r[k]@[0] < s.len() && scc_leader(s, r[k]@[0] as int)
                && r[k]@.map_values(|y: usize| y as int) == scc_positions(s, r[k]@[0] as int),
        forall|p: int| 0 <= p < s.len() && #[trigger] scc_leader(s, p) ==> exists|k: int| 0 <= k < r.len() && #[trigger] r[k]@[0] == p,
        forall|k1: int, k2: int| 0 <= k1 < k2 < r.len() ==> (#[trigger] r[k1])@[0] != (#[trigger] r[k2])@[0],
    ensures
        forall|x: usize| x < s.len() ==> #[trigger] listed_in(r, x),
        forall|k1: int, k2: int, x: usize|
            0 <= k1 < r.len() && 0 <= k2 < r.len() && #[trigger] r[k1]@.contains(x) && #[trigger] r[k2]@.contains(x)
                ==> k1 == k2,
{
    assert forall|x: usize| x < s.len() implies #[trigger] listed_in(r, x) by {
        assert(is_rep(s, x as int));
        assert(reaches(s, x as int, x as int));
        lemma_leader_exists(s, x as int, x as int);
        let l = choose|l: int| 0 <= l <= x && #[trigger] scc_leader(s, l) && same_scc(s, x as int, l);
        let k = choose|k: int| 0 <= k < r.len() && #[trigger] r[k]@[0] == l;
        let members = scc_positions(s, l);
        let pred = |q: int| same_scc(s, l, q);
        Seq::new(s.len(), |q: int| q).lemma_filter_contains(pred, x as int);
        let i = choose|i: int| 0 <= i < members.len() && members[i] == x as int;
        assert(r[k]@.map_values(|y: usize| y as int)[i] == x as int);
        assert(r[k]@[i] == x);
        assert(r[k]@.contains(x));
    }
    assert forall|k1: int, k2: int, x: usize|
        0 <= k1 < r.len() && 0 <= k2 < r.len() && #[trigger] r[k1]@.contains(x) && #[trigger] r[k2]@.contains(x)
            implies k1 == k2 by {
        let l1 = r[k1]@[0] as int;
        let l2 = r[k2]@[0] as int;
        let i1 = choose|i: int| 0 <= i < r[k1]@.len() && r[k1]@[i] == x;
        let i2 = choose|i: int| 0 <= i < r[k2]@.len() && r[k2]@[i] == x;
        assert(r[k1]@.map_values(|y: usize| y as int)[i1] == x as int);
        assert(r[k2]@.map_values(|y: usize| y as int)[i2] == x as int);
        Seq::new(s.len(), |q: int| q).lemma_filter_pred(|q: int| same_scc(s, l1, q), i1);
        Seq::new(s.len(), |q: int| q).lemma_filter_pred(|q: int| same_scc(s, l2, q), i2);
        assert(same_scc(s, l1, x as int) && same_scc(s, l2, x as int));
        assert(same_scc(s, l1, l2));
        if l1 < l2 {
            assert(!same_scc(s, l2, l1));
        } else if l2 < l1 {
            assert(!same_scc(s, l1, l2));
        }
        if k1 < k2 {
            assert(r[k1]@[0] != r[k2]@[0]);
        } else if k2 < k1 {
            assert(r[k2]@[0] != r[k1]@[0]);
        }
    }
}

/// Task `b` lies on a path out of task `a` but not the other way round, so
/// strictly more tasks reach `b` than reach `a`.
proof fn lemma_ancestors_grow(s: Seq<TaskNode>, a: int, b: int)
    requires
        0 <= a < s.len(),
        0 <= b < s.len(),
        reaches(s, a, b),
        !reaches(s, b, a),
    ensures
        count_true(ancestors(s, a)) < count_true(ancestors(s, b)),
{
    lemma_reaches_facts(s);
    assert forall|x: int| 0 <= x < s.len() && #[trigger] ancestors(s, a)[x] implies ancestors(s, b)[x] by {
        assert(reaches(s, x, a));
    }
    assert(is_rep(s, b));
    assert(!ancestors(s, a)[b] && ancestors(s, b)[b]);
    lemma_count_true_mono(ancestors(s, a), ancestors(s, b));
}

/// Component leaders in output order: more tasks reaching first, then by position.
pub open spec fn leader_before(s: Seq<TaskNode>, a: usize, b: usize) -> bool {
    let ca = count_true(ancestors(s, a as int));
    let cb = count_true(ancestors(s, b as int));
    ca > cb || (ca == cb && a < b)
}

/// How many tasks reach task `p`.
fn ancestor_count(Ghost(s): Ghost<Seq<TaskNode>>, mat: &Vec<Vec<bool>>, p: usize) -> (c: usize)
    requires
        p < s.len(),
        reach_matrix_of(s, mat@),
    ensures
        c == count_true(ancestors(s, p as int)),
{
    let n = mat.len();
    let mut c: usize = 0;
    let mut q: usize = 0;
    while q < n
        invariant
            q <= n,
            p < n,
            n == s.len(),
            reach_matrix_of(s, mat@),
            c <= q,
            c == count_true(Seq::new(q as nat, |x: int| reaches(s, x, p as int))),
        decreases n - q,
    {
        proof {
            let t = Seq::new((q + 1) as nat, |x: int| reaches(s, x, p as int));
            assert(t.drop_last() =~= Seq::new(q as nat, |x: int| reaches(s, x, p as int)));
        }
        if mat[q][p] {
            c = c + 1;
        }
        q = q + 1;
    }
    assert(Seq::new(n as nat, |x: int| reaches(s, x, p as int)) =~= ancestors(s, p as int));
    c
}

/// The strongly connected components of the graph's tasks, as positions,
/// each listing its members in increasing order. They come in reverse
/// dependency order: no component reaches a component listed after it, so
/// a task's component comes before the components of its prerequisites.
/// Between unrelated components, the one more tasks reach comes first, then
/// the one whose first member comes first.
pub fn compute_sccs(graph: &TaskGraph) -> (r: Vec<Vec<usize>>)
    requires
        graph.wf(),
    ensures
        r@.len() == scc_leaders(graph.nodes@).len(),
        forall|k: int|
            0 <= k < r@.len() ==> (#[trigger] r@[k])@.len() > 0 && r@[k]@[0] < graph.nodes@.len() && scc_leader(
                graph.nodes@,
                r@[k]@[0] as int,
            ) && r@[k]@.map_values(|y: usize| y as int) == scc_positions(graph.nodes@, r@[k]@[0] as int),
        forall|p: int|
            0 <= p < graph.nodes@.len() && #[trigger] scc_leader(graph.nodes@, p) ==> exists|k: int|
                0 <= k < r@.len() && #[trigger] r@[k]@[0] == p,
        forall|k1: int, k2: int|
            0 <= k1 < k2 < r@.len() ==> (#[trigger] r@[k1])@[0] != (#[trigger] r@[k2])@[0] && !reaches(
                graph.nodes@,
                r@[k1]@[0] as int,
                r@[k2]@[0] as int,
            ),
        forall|x: usize| x < graph.nodes@.len() ==> #[trigger] listed_in(r@, x),
        forall|k1: int, k2: int, x: usize|
            0 <= k1 < r@.len() && 0 <= k2 < r@.len() && #[trigger] r@[k1]@.contains(x) && #[trigger] r@[k2]@.contains(x)
                ==> k1 == k2,
{
    let ghost s = graph.nodes@;
    let n = graph.nodes.len();
    let refs = refs_of(&graph.nodes);
    let adj = dependents_lists(&refs);
    let reps = rep_flags(&refs);
    let mat = reach_matrix(&refs, &adj, &reps);
    proof {
        assert(deref_nodes(refs@) == s);
        lemma_reaches_facts(s);
        lemma_all_reps(s);
    }
    let ghost lpred = |q: int| scc_leader(s, q);
    let mut leaders: Vec<usize> = Vec::new();
    let mut counts: Vec<usize> = Vec::new();
    let mut p: usize = 0;
    while p < n
        invariant
            n == s.len(),
            s == graph.nodes@,
            p <= n,
            reach_matrix_of(s, mat@),
            lpred == (|q: int| scc_leader(s, q)),
            leaders@.map_values(|y: usize| y as int) == Seq::new(p as nat, |q: int| q).filter(lpred),
            forall|k: int| 0 <= k < leaders.len() ==> (#[trigger] leaders@[k]) < p,
            forall|a: int, b: int| 0 <= a < b < leaders.len() ==> leaders@[a] < leaders@[b],
            counts.len() == p,
            forall|x: int| 0 <= x < p ==> #[trigger] counts@[x] == count_true(ancestors(s, x)),
        decreases n - p,
    {
        proof {
            let t = Seq::new((p + 1) as nat, |y: int| y);
            assert(t.drop_last() =~= Seq::new(p as nat, |y: int| y));
            assert(t.last() == p as int);
            reveal(Seq::filter);
        }
        let c = ancestor_count(Ghost(s), &mat, p);
        counts.push(c);
        if is_scc_leader(Ghost(s), &mat, p) {
            let ghost before = leaders@;
            leaders.push(p);
            assert(leaders@.map_values(|y: usize| y as int) =~= before.map_values(|y: usize| y as int).push(p as int));
        }
        p = p + 1;
    }
    proof {
        assert(Seq::new(n as nat, |q: int| q) =~= Seq::new(s.len(), |q: int| q));
    }
    let ghost lt = |a: usize, b: usize| leader_before(s, a, b);
    let less = |a: usize, b: usize| -> (o: bool)
        requires
            a < counts.len(),
            b < counts.len(),
        ensures
            o == (counts@[a as int] > counts@[b as int] || (counts@[a as int] == counts@[b as int] && a < b)),
        { counts[a] > counts[b] || (counts[a] == counts[b] && a < b) };
    proof {
        assert forall|a: int, b: int| 0 <= a < b < leaders.len() implies leaders@[a] != leaders@[b] by {}
        assert(leaders@.no_duplicates());
        assert forall|a: usize| #[trigger] leaders@.contains(a) implies a < n by {
            let k = choose|k: int| 0 <= k < leaders.len() && leaders@[k] == a;
        }
        assert forall|a: usize, b: usize, o: bool|
            leaders@.contains(a) && leaders@.contains(b) && #[trigger] less.ensures((a, b), o) implies o == lt(a, b) by {
            assert(counts@[a as int] == count_true(ancestors(s, a as int)));
            assert(counts@[b as int] == count_true(ancestors(s, b as int)));
        }
    }
    proof {
        assert forall|a: usize| #[trigger] leaders@.contains(a) implies a < n && scc_leader(s, a as int) by {
            let k = choose|k: int| 0 <= k < leaders.len() && leaders@[k] == a;
            let lv = leaders@.map_values(|y: usize| y as int);
            Seq::new(s.len(), |q: int| q).lemma_filter_pred(lpred, k);
            assert(lv[k] == a as int);
        }
    }
    let sorted = sort_by_less(&leaders, &less, Ghost(lt));
    let mut r: Vec<Vec<usize>> = Vec::new();
    let mut k: usize = 0;
    while k < sorted.len()
        invariant
            n == s.len(),
            s == graph.nodes@,
            graph.wf(),
            reach_matrix_of(s, mat@),
            k <= sorted.len(),
            r.len() == k,
            same_elements(sorted@, leaders@),
            sorted_by(lt, sorted@),
            lt == (|a: usize, b: usize| leader_before(s, a, b)),
            leaders@.map_values(|y: usize| y as int) == Seq::new(s.len(), |q: int| q).filter(lpred),
            lpred == (|q: int| scc_leader(s, q)),
            forall|a: usize| #[trigger] leaders@.contains(a) ==> a < n && scc_leader(s, a as int),
            forall|j: int| 0 <= j < k ==> (#[trigger] r@[j])@.len() > 0 && r@[j]@[0] == sorted@[j] && r@[j]@.map_values(
                |y: usize| y as int,
            ) == scc_positions(s, sorted@[j] as int),
        decreases sorted.len() - k,
    {
        let l = sorted[k];
        assert(sorted@.contains(l));
        let ms = component_positions(Ghost(s), &mat, l);
        proof {
            let members = scc_positions(s, l as int);
            let pred = |x: int| same_scc(s, l as int, x);
            lemma_reaches_facts(s);
            lemma_all_reps(s);
            assert(is_rep(s, l as int));
            assert(same_scc(s, l as int, l as int));
            Seq::new(s.len(), |q: int| q).lemma_filter_contains(pred, l as int);
            let i = choose|i: int| 0 <= i < members.len() && members[i] == l as int;
            assert(ms@[i] as int == members[i]);
            Seq::new(s.len(), |q: int| q).lemma_filter_pred(pred, 0);
            assert(ms@[0] as int == members[0]);
            assert(same_scc(s, l as int, members[0]));
            if i > 0 {
                assert(ms@[0] < ms@[i]);
            }
            assert(ms@[0] == l);
        }
        let ghost before = r@;
        r.push(ms);
        proof {
            assert forall|j: int| 0 <= j < k + 1 implies (#[trigger] r@[j])@.len() > 0 && r@[j]@[0] == sorted@[j]
                && r@[j]@.map_values(|y: usize| y as int) == scc_positions(s, sorted@[j] as int) by {
                if j < k {
                    assert(r@[j] == before[j]);
                }
            }
        }
        k = k + 1;
    }
    proof {
        assert(leaders@.len() == Seq::new(s.len(), |q: int| q).filter(lpred).len());
        assert forall|j: int| 0 <= j < r@.len() implies (#[trigger] r@[j])@.len() > 0 && r@[j]@[0] < s.len()
            && scc_leader(s, r@[j]@[0] as int) && r@[j]@.map_values(|y: usize| y as int) == scc_positions(
            s,
            r@[j]@[0] as int,
        ) by {
            assert(sorted@.contains(sorted@[j]));
        }
        assert forall|p: int| 0 <= p < s.len() && #[trigger] scc_leader(s, p) implies exists|j: int|
            0 <= j < r@.len() && #[trigger] r@[j]@[0] == p by {
            Seq::new(s.len(), |q: int| q).lemma_filter_contains(lpred, p);
            let lv = leaders@.map_values(|y: usize| y as int);
            assert(lv.contains(p));
            let m = choose|m: int| 0 <= m < lv.len() && lv[m] == p;
            assert(leaders@[m] as int == p);
            assert(leaders@.contains(leaders@[m]));
            assert(sorted@.contains(p as usize));
            let j = choose|j: int| 0 <= j < sorted.len() && sorted@[j] == p as usize;
            assert(r@[j]@[0] == p);
        }
        assert forall|k1: int, k2: int| 0 <= k1 < k2 < r@.len() implies (#[trigger] r@[k1])@[0] != (#[trigger] r@[k2])@[0]
            && !reaches(s, r@[k1]@[0] as int, r@[k2]@[0] as int) by {
            let a = sorted@[k1];
            let b = sorted@[k2];
            assert(lt(a, b));
            assert(sorted@.contains(a) && sorted@.contains(b));
            if a == b {
                assert(!lt(a, a));
            }
            if reaches(s, a as int, b as int) {
                if reaches(s, b as int, a as int) {
                    assert(same_scc(s, a as int, b as int));
                    if a < b {
                        assert(!same_scc(s, b as int, a as int));
                    } else {
                        assert(!same_scc(s, a as int, b as int));
                    }
                }
                lemma_ancestors_grow(s, a as int, b as int);
            }
        }
    }
    proof {
        lemma_reaches_facts(s);
        lemma_all_reps(s);
        lemma_sccs_partition(s, r@);
    }
    r
}

/// Whether a component is a dependency cycle: it has more than one member,
/// or its one member needs itself.
pub fn is_cycle(graph: &TaskGraph, scc: &Vec<usize>) -> (r: bool)
    requires
        forall|k: int| 0 <= k < scc@.len() ==> (#[trigger] scc@[k]) < graph.nodes@.len(),
    ensures
        r == (scc@.len() > 1 || (scc@.len() == 1 && needs_id(
            graph.nodes@[scc@[0] as int],
            id_of(graph.nodes@[scc@[0] as int]),
        ))),
{
    if scc.len() > 1 {
        return true;
    }
    if scc.len() == 0 {
        return false;
    }
    let node = &graph.nodes[scc[0]];
    contains_str(&node.frontmatter.needs, node.frontmatter.id.as_str())
}

} // verus!
