//! Reachability over a finite directed graph given by successor lists.
//!
//! Nodes are the indices `0..n`. A walk starts at a node marked in `init`,
//! follows edges, and only ever stands on nodes marked in `allowed`. The edges
//! are given abstractly by a relation and concretely by successor lists that
//! match it.
use vstd::prelude::*;

verus! {

/// Every successor list exists and names nodes in range.
pub open spec fn adj_wf(adj: Seq<Seq<usize>>, n: int) -> bool {
    &&& adj.len() == n
    &&& forall|i: int, k: int| 0 <= i < n && 0 <= k < adj[i].len() ==> (#[trigger] adj[i][k]) < n
}

/// The successor lists hold exactly the edges of `edge` among the nodes `0..n`.
pub open spec fn adj_matches(adj: Seq<Seq<usize>>, edge: spec_fn(int, int) -> bool, n: int) -> bool {
    &&& adj_wf(adj, n)
    &&& forall|i: int, j: int| 0 <= i < n && 0 <= j < n ==> (adj[i].contains(j as usize) <==> #[trigger] edge(i, j))
}

/// `p` is a walk: it starts in `init`, stays on allowed nodes and follows edges.
pub open spec fn is_walk(edge: spec_fn(int, int) -> bool, allowed: Seq<bool>, init: Seq<bool>, p: Seq<int>) -> bool {
    &&& p.len() > 0
    &&& init[p[0]]
    &&& forall|k: int| 0 <= k < p.len() ==> 0 <= #[trigger] p[k] < allowed.len() && allowed[p[k]]
    &&& forall|k: int| 0 <= k < p.len() - 1 ==> edge(#[trigger] p[k], p[k + 1])
}

/// Node `j` is the end of some walk.
pub open spec fn reachable(edge: spec_fn(int, int) -> bool, allowed: Seq<bool>, init: Seq<bool>, j: int) -> bool {
    exists|p: Seq<int>| #[trigger] is_walk(edge, allowed, init, p) && p.last() == j
}

/// Number of `false` entries.
pub open spec fn count_false(s: Seq<bool>) -> nat
    decreases s.len(),
{
    if s.len() == 0 {
        0
    } else {
        count_false(s.drop_last()) + if s.last() {
            0nat
        } else {
            1nat
        }
    }
}

proof fn lemma_count_false_set(s: Seq<bool>, j: int)
    requires
        0 <= j < s.len(),
        !s[j],
    ensures
        count_false(s.update(j, true)) + 1 == count_false(s),
    decreases s.len(),
{
    if j == s.len() - 1 {
        assert(s.update(j, true).drop_last() =~= s.drop_last());
    } else {
        lemma_count_false_set(s.drop_last(), j);
        assert(s.update(j, true).drop_last() =~= s.drop_last().update(j, true));
    }
}

/// A walk extended by one allowed successor is a walk.
pub proof fn lemma_extend_walk(edge: spec_fn(int, int) -> bool, allowed: Seq<bool>, init: Seq<bool>, p: Seq<int>, w: int)
    requires
        is_walk(edge, allowed, init, p),
        0 <= w < allowed.len(),
        allowed[w],
        edge(p.last(), w),
    ensures
        is_walk(edge, allowed, init, p.push(w)),
{
    let q = p.push(w);
    assert forall|k: int| 0 <= k < q.len() - 1 implies edge(#[trigger] q[k], q[k + 1]) by {
        if k < p.len() - 1 {
            assert(q[k] == p[k] && q[k + 1] == p[k + 1]);
        }
    }
}

/// The node that the `k`-th successor edge of node `j` leads to.
pub open spec fn succ(adj: Seq<Seq<usize>>, j: int, k: int) -> int {
    adj[j][k] as int
}

/// Every allowed successor of node `j` is visited.
pub open spec fn closed_at(adj: Seq<Seq<usize>>, allowed: Seq<bool>, visited: Seq<bool>, j: int) -> bool {
    forall|k: int|
        0 <= k < adj[j].len() && allowed[succ(adj, j, k)] ==> visited[#[trigger] succ(adj, j, k)]
}

proof fn lemma_closed_mono(adj: Seq<Seq<usize>>, allowed: Seq<bool>, visited: Seq<bool>, w: int, j: int)
    requires
        closed_at(adj, allowed, visited, j),
        0 <= w < visited.len(),
        adj_wf(adj, visited.len() as int),
        0 <= j < visited.len(),
    ensures
        closed_at(adj, allowed, visited.update(w, true), j),
{
    assert forall|k: int|
        0 <= k < adj[j].len() && allowed[succ(adj, j, k)] implies visited.update(w, true)[#[trigger] succ(
        adj,
        j,
        k,
    )] by {
        assert(adj[j][k] < visited.len());
        assert(visited[succ(adj, j, k)]);
    }
}

/// If every walk start is visited and every visited node has all allowed
/// successors visited, then every walk ends on a visited node.
proof fn lemma_closed_covers(
    adj: Seq<Seq<usize>>,
    edge: spec_fn(int, int) -> bool,
    allowed: Seq<bool>,
    init: Seq<bool>,
    visited: Seq<bool>,
    p: Seq<int>,
)
    requires
        adj_matches(adj, edge, allowed.len() as int),
        is_walk(edge, allowed, init, p),
        visited.len() == allowed.len(),
        init.len() == allowed.len(),
        allowed.len() <= usize::MAX,
        forall|j: int| 0 <= j < init.len() && init[j] && allowed[j] ==> visited[j],
        forall|j: int| 0 <= j < visited.len() && visited[j] ==> #[trigger] closed_at(adj, allowed, visited, j),
    ensures
        visited[p.last()],
    decreases p.len(),
{
    if p.len() == 1 {
        assert(0 <= p[0] < allowed.len());
    } else {
        let q = p.drop_last();
        assert(is_walk(edge, allowed, init, q)) by {
            assert forall|k: int| 0 <= k < q.len() - 1 implies edge(#[trigger] q[k], q[k + 1]) by {
                assert(q[k] == p[k] && q[k + 1] == p[k + 1]);
            }
            assert forall|k: int| 0 <= k < q.len() implies 0 <= #[trigger] q[k] < allowed.len() && allowed[q[k]] by {
                assert(q[k] == p[k]);
            }
        }
        lemma_closed_covers(adj, edge, allowed, init, visited, q);
        let a = p[p.len() - 2];
        assert(a == q.last());
        assert(0 <= a < allowed.len());
        assert(closed_at(adj, allowed, visited, a));
        assert(edge(p[p.len() - 2], p[p.len() - 1]));
        assert(0 <= p.last() < allowed.len());
        assert(adj[a].contains(p.last() as usize));
        let k = choose|k: int| 0 <= k < adj[a].len() && adj[a][k] == p.last() as usize;
        assert(0 <= p.last() < allowed.len() && allowed[p.last()]);
        assert(succ(adj, a, k) == p.last());
    }
}

/// Marks every node reachable by a walk.
pub fn reach_from(
    adj: &Vec<Vec<usize>>,
    Ghost(edge): Ghost<spec_fn(int, int) -> bool>,
    allowed: &Vec<bool>,
    init: &Vec<bool>,
) -> (r: Vec<bool>)
    requires
        adj_matches(adj.deep_view(), edge, allowed.len() as int),
        init.len() == allowed.len(),
    ensures
        r.len() == allowed.len(),
        forall|j: int| 0 <= j < r.len() ==> (r[j] <==> reachable(edge, allowed@, init@, j)),
{
    let n = allowed.len();
    let ghost g = adj.deep_view();
    let mut visited: Vec<bool> = Vec::new();
    let mut stack: Vec<usize> = Vec::new();
    let mut i: usize = 0;
    while i < n
        invariant
            i <= n,
            n == allowed.len(),
            n == init.len(),
            visited.len() == i,
            forall|x: int| 0 <= x < stack.len() ==> (#[trigger] stack@[x]) < i && visited[stack@[x] as int],
            stack@.no_duplicates(),
            forall|j: int| 0 <= j < i ==> (visited[j] <==> (init[j] && allowed[j])),
            forall|j: int| 0 <= j < i && visited[j] ==> stack@.contains(j as usize),
        decreases n - i,
    {
        let m = init[i] && allowed[i];
        let ghost old_stack = stack@;
        visited.push(m);
        if m {
            stack.push(i);
            assert(stack@[stack.len() - 1] == i);
        }
        assert forall|j: int| 0 <= j < i + 1 && visited[j] implies stack@.contains(j as usize) by {
            if j < i {
                let x = choose|x: int| 0 <= x < old_stack.len() && old_stack[x] == j as usize;
                assert(stack@[x] == j as usize);
            }
        }
        i = i + 1;
    }
    assert forall|j: int| 0 <= j < n && visited[j] implies reachable(edge, allowed@, init@, j) by {
        let p = seq![j];
        assert(is_walk(edge, allowed@, init@, p));
    }
    while stack.len() > 0
        invariant
            n == allowed.len(),
            n == init.len(),
            g == adj.deep_view(),
            adj_matches(g, edge, n as int),
            visited.len() == n,
            forall|x: int| 0 <= x < stack.len() ==> (#[trigger] stack@[x]) < n && visited[stack@[x] as int],
            stack@.no_duplicates(),
            forall|j: int| 0 <= j < n && visited[j] ==> allowed[j] && reachable(edge, allowed@, init@, j),
            forall|j: int| 0 <= j < n && init[j] && allowed[j] ==> visited[j],
            forall|j: int|
                0 <= j < n && visited[j] && !stack@.contains(j as usize) ==> #[trigger] closed_at(
                    g,
                    allowed@,
                    visited@,
                    j,
                ),
        decreases count_false(visited@), stack.len(),
    {
        let ghost old_stack = stack@;
        let v = stack.pop().unwrap();
        assert(old_stack =~= stack@.push(v));
        assert(!stack@.contains(v)) by {
            if stack@.contains(v) {
                let x = choose|x: int| 0 <= x < stack@.len() && stack@[x] == v;
                assert(old_stack[x] == old_stack[old_stack.len() - 1]);
            }
        }
        assert forall|y: usize| #[trigger] stack@.contains(y) implies old_stack.contains(y) by {
            let x = choose|x: int| 0 <= x < stack@.len() && stack@[x] == y;
            assert(old_stack[x] == y);
        }
        let ghost stack_after_pop = stack@;
        let nbrs = &adj[v];
        assert(nbrs@ == g[v as int]);
        let ghost count_before = count_false(visited@);
        let mut k: usize = 0;
        while k < nbrs.len()
            invariant
                n == allowed.len(),
                n == init.len(),
                g == adj.deep_view(),
                adj_matches(g, edge, n as int),
                v < n,
                nbrs@ == g[v as int],
                visited[v as int],
                k <= nbrs.len(),
                visited.len() == n,
                !stack@.contains(v),
                forall|x: int| 0 <= x < stack.len() ==> (#[trigger] stack@[x]) < n && visited[stack@[x] as int],
                stack@.no_duplicates(),
                forall|j: int| 0 <= j < n && visited[j] ==> allowed[j] && reachable(edge, allowed@, init@, j),
                forall|j: int| 0 <= j < n && init[j] && allowed[j] ==> visited[j],
                forall|j: int|
                    0 <= j < n && j != v && visited[j] && !stack@.contains(j as usize)
                        ==> #[trigger] closed_at(g, allowed@, visited@, j),
                forall|kk: int|
                    0 <= kk < k && allowed[succ(g, v as int, kk)] ==> visited[#[trigger] succ(g, v as int, kk)],
                count_false(visited@) <= count_before,
                count_false(visited@) < count_before || stack@ == stack_after_pop,
            decreases nbrs.len() - k,
        {
            let w = nbrs[k];
            assert(w == g[v as int][k as int]);
            assert(succ(g, v as int, k as int) == w as int);
            if allowed[w] && !visited[w] {
                let ghost old_visited = visited@;
                let ghost old_stack2 = stack@;
                proof {
                    let p = choose|p: Seq<int>| #[trigger] is_walk(edge, allowed@, init@, p) && p.last() == v as int;
                    assert(g[v as int][k as int] == w);
                    assert(g[v as int].contains(w));
                    assert(edge(v as int, w as int));
                    lemma_extend_walk(edge, allowed@, init@, p, w as int);
                    assert(p.push(w as int).last() == w as int);
                    lemma_count_false_set(visited@, w as int);
                }
                visited.set(w, true);
                stack.push(w);
                proof {
                    assert forall|j: int|
                        0 <= j < n && j != v && visited[j] && !stack@.contains(j as usize) implies #[trigger] closed_at(
                        g,
                        allowed@,
                        visited@,
                        j,
                    ) by {
                        assert(j != w as int) by {
                            assert(stack@[stack@.len() - 1] == w);
                        }
                        assert(!old_stack2.contains(j as usize)) by {
                            if old_stack2.contains(j as usize) {
                                let x = choose|x: int| 0 <= x < old_stack2.len() && old_stack2[x] == j as usize;
                                assert(stack@[x] == j as usize);
                            }
                        }
                        lemma_closed_mono(g, allowed@, old_visited, w as int, j);
                    }
                    assert forall|x: int| 0 <= x < stack.len() implies (#[trigger] stack@[x]) < n && visited[stack@[x] as int] by {
                        if x < old_stack2.len() {
                            assert(stack@[x] == old_stack2[x]);
                        }
                    }
                    assert(!old_stack2.contains(w)) by {
                        if old_stack2.contains(w) {
                            let x = choose|x: int| 0 <= x < old_stack2.len() && old_stack2[x] == w;
                        }
                    }
                    assert(stack@ =~= old_stack2.push(w));
                }
            }
            k = k + 1;
        }
        proof {
            assert(closed_at(g, allowed@, visited@, v as int));
        }
    }
    proof {
        assert forall|j: int| 0 <= j < n && reachable(edge, allowed@, init@, j) implies visited[j] by {
            let p = choose|p: Seq<int>| #[trigger] is_walk(edge, allowed@, init@, p) && p.last() == j;
            lemma_closed_covers(g, edge, allowed@, init@, visited@, p);
        }
    }
    visited
}


/// Number of `true` entries.
pub open spec fn count_true(s: Seq<bool>) -> nat
    decreases s.len(),
{
    if s.len() == 0 {
        0
    } else {
        count_true(s.drop_last()) + if s.last() {
            1nat
        } else {
            0nat
        }
    }
}

/// At most every entry is `true`.
pub proof fn lemma_count_true_bound(s: Seq<bool>)
    ensures
        count_true(s) <= s.len(),
    decreases s.len(),
{
    if s.len() > 0 {
        lemma_count_true_bound(s.drop_last());
    }
}

/// Marking fewer entries counts no more; marking strictly fewer counts strictly fewer.
pub proof fn lemma_count_true_mono(a: Seq<bool>, b: Seq<bool>)
    requires
        a.len() == b.len(),
        forall|i: int| 0 <= i < a.len() && #[trigger] a[i] ==> b[i],
    ensures
        count_true(a) <= count_true(b),
        (exists|w: int| 0 <= w < a.len() && !a[w] && b[w]) ==> count_true(a) < count_true(b),
    decreases a.len(),
{
    if a.len() > 0 {
        let a2 = a.drop_last();
        let b2 = b.drop_last();
        assert forall|i: int| 0 <= i < a2.len() && #[trigger] a2[i] implies b2[i] by {
            assert(a[i]);
        }
        lemma_count_true_mono(a2, b2);
        if exists|w: int| 0 <= w < a.len() && !a[w] && b[w] {
            let w = choose|w: int| 0 <= w < a.len() && !a[w] && b[w];
            if w < a.len() - 1 {
                assert(!a2[w] && b2[w]);
            }
        }
    }
}

/// Counts the marked entries.
pub fn count_marked(v: &Vec<bool>) -> (c: usize)
    ensures
        c == count_true(v@),
{
    let mut c: usize = 0;
    let mut i: usize = 0;
    while i < v.len()
        invariant
            i <= v.len(),
            c == count_true(v@.take(i as int)),
        decreases v.len() - i,
    {
        proof {
            assert(v@.take(i + 1).drop_last() =~= v@.take(i as int));
            lemma_count_true_bound(v@.take(i as int));
        }
        if v[i] {
            c = c + 1;
        }
        i = i + 1;
    }
    assert(v@.take(v.len() as int) =~= v@);
    c
}


/// The mask that marks node `a` alone.
pub open spec fn single(n: nat, a: int) -> Seq<bool> {
    Seq::new(n, |j: int| j == a)
}

/// Node `b` is the end of a walk that starts at node `a`.
pub open spec fn reaches_from(edge: spec_fn(int, int) -> bool, allowed: Seq<bool>, a: int, b: int) -> bool {
    reachable(edge, allowed, single(allowed.len(), a), b)
}

/// A walk starts and ends on allowed nodes in range.
pub proof fn lemma_reaches_ends(edge: spec_fn(int, int) -> bool, allowed: Seq<bool>, a: int, b: int)
    requires
        reaches_from(edge, allowed, a, b),
    ensures
        0 <= a < allowed.len(),
        0 <= b < allowed.len(),
        allowed[a],
        allowed[b],
{
    let p = choose|p: Seq<int>| #[trigger] is_walk(edge, allowed, single(allowed.len(), a), p) && p.last() == b;
    assert(0 <= p[0] < allowed.len());
    assert(single(allowed.len(), a)[p[0]]);
    assert(0 <= p[p.len() - 1] < allowed.len());
}

/// Every allowed node reaches itself.
pub proof fn lemma_reaches_refl(edge: spec_fn(int, int) -> bool, allowed: Seq<bool>, a: int)
    requires
        0 <= a < allowed.len(),
        allowed[a],
    ensures
        reaches_from(edge, allowed, a, a),
{
    let p = seq![a];
    assert(is_walk(edge, allowed, single(allowed.len(), a), p));
}

/// Reaching is transitive.
pub proof fn lemma_reaches_trans(edge: spec_fn(int, int) -> bool, allowed: Seq<bool>, a: int, b: int, c: int)
    requires
        reaches_from(edge, allowed, a, b),
        reaches_from(edge, allowed, b, c),
    ensures
        reaches_from(edge, allowed, a, c),
{
    let n = allowed.len();
    let p = choose|p: Seq<int>| #[trigger] is_walk(edge, allowed, single(n, a), p) && p.last() == b;
    let q = choose|q: Seq<int>| #[trigger] is_walk(edge, allowed, single(n, b), q) && q.last() == c;
    assert(single(n, b)[q[0]]);
    let w = p + q.drop_first();
    assert(w[0] == p[0]);
    assert forall|k: int| 0 <= k < w.len() implies 0 <= #[trigger] w[k] < allowed.len() && allowed[w[k]] by {
        if k >= p.len() {
            assert(w[k] == q[k - p.len() + 1]);
        }
    }
    assert forall|k: int| 0 <= k < w.len() - 1 implies edge(#[trigger] w[k], w[k + 1]) by {
        if k < p.len() - 1 {
            assert(w[k] == p[k] && w[k + 1] == p[k + 1]);
        } else if k == p.len() - 1 {
            assert(w[k] == p.last());
            assert(w[k + 1] == q[1]);
            assert(q[0] == b);
            assert(edge(q[0], q[1]));
        } else {
            assert(w[k] == q[k - p.len() + 1]);
            assert(w[k + 1] == q[k - p.len() + 2]);
        }
    }
    assert(is_walk(edge, allowed, single(n, a), w));
    if q.len() == 1 {
        assert(w =~= p);
    } else {
        assert(w.last() == q.last());
    }
}

} // verus!
