//! The in-memory task graph: readiness, transitive blocking counts and the
//! ranking of ready tasks.
use crate::models::{
    lemma_opt_time_flip, lemma_opt_time_trans, opt_time_order, order_opt_time, Priority, TaskNode, TaskStatus, Timestamp,
};
use crate::reach::{adj_matches, count_marked, count_true, is_walk, lemma_count_true_bound, lemma_count_true_mono, reach_from, reachable};
use crate::sorting::{same_elements, sort_by_less, sorted_by, strict_total_on};
use crate::text::{
    contains_str, flip, lemma_seq_order_equal, lemma_seq_order_flip, lemma_seq_order_trans, order_strs,
    same_str, seq_order, Order,
};
use vstd::prelude::*;
use vstd::string::StringExecFns;

verus! {

/// The characters of a node's task ID.
pub open spec fn id_of(n: TaskNode) -> Seq<char> {
    n.frontmatter.id@
}

/// No two nodes share a task ID.
pub open spec fn distinct_ids(s: Seq<TaskNode>) -> bool {
    forall|i: int, j: int|
        0 <= i < s.len() && 0 <= j < s.len() && i != j ==> #[trigger] id_of(s[i]) != #[trigger] id_of(s[j])
}

/// Some node carries the task ID `id`.
pub open spec fn has_id(s: Seq<TaskNode>, id: Seq<char>) -> bool {
    exists|i: int| 0 <= i < s.len() && #[trigger] id_of(s[i]) == id
}

/// Node `n` lists `id` among its prerequisites.
pub open spec fn needs_id(n: TaskNode, id: Seq<char>) -> bool {
    n.frontmatter.needs.deep_view().contains(id)
}

/// The dependency edge `i -> j`: node `j` needs node `i`.
pub open spec fn dep_edge(s: Seq<TaskNode>) -> spec_fn(int, int) -> bool {
    |i: int, j: int| needs_id(s[j], id_of(s[i]))
}

/// The prerequisite `need` names a node that is in a terminal state.
pub open spec fn need_closed(s: Seq<TaskNode>, need: Seq<char>) -> bool {
    exists|j: int| 0 <= j < s.len() && #[trigger] id_of(s[j]) == need && s[j].frontmatter.status is Closed
}

/// Node `n` is actionable and every prerequisite exists and is terminal.
pub open spec fn node_ready(s: Seq<TaskNode>, n: TaskNode) -> bool {
    &&& n.frontmatter.status is Live
    &&& forall|k: int| 0 <= k < n.frontmatter.needs@.len() ==> need_closed(s, #[trigger] n.frontmatter.needs@[k]@)
}

/// The task `id` exists and is ready to be worked on.
pub open spec fn ready(s: Seq<TaskNode>, id: Seq<char>) -> bool {
    exists|i: int| 0 <= i < s.len() && #[trigger] id_of(s[i]) == id && node_ready(s, s[i])
}

/// The nodes a blocking walk from task `id` may pass through: actionable and not `id` itself.
pub open spec fn blocking_allowed(s: Seq<TaskNode>, id: Seq<char>) -> Seq<bool> {
    Seq::new(s.len(), |j: int| s[j].frontmatter.status is Live && id_of(s[j]) != id)
}

/// The nodes that directly need task `id`.
pub open spec fn direct_dependents(s: Seq<TaskNode>, id: Seq<char>) -> Seq<bool> {
    Seq::new(s.len(), |j: int| needs_id(s[j], id))
}

/// The actionable tasks, other than `id`, that task `id` blocks transitively
/// through actionable tasks.
pub open spec fn blocked_by_task(s: Seq<TaskNode>, id: Seq<char>) -> Seq<bool> {
    Seq::new(
        s.len(),
        |j: int| reachable(dep_edge(s), blocking_allowed(s, id), direct_dependents(s, id), j),
    )
}

/// How many actionable tasks task `id` blocks transitively.
pub open spec fn blocking_count(s: Seq<TaskNode>, id: Seq<char>) -> nat {
    count_true(blocked_by_task(s, id))
}

/// The priority used for ranking: its value, or `u32::MAX` when unset.
pub open spec fn priority_rank(p: Option<Priority>) -> u32 {
    match p {
        Some(q) => q.val(),
        None => u32::MAX,
    }
}

/// The lowest ranking priority (see [`priority_rank`]) among the tasks
/// marked in `mask` at positions below `k`, or `u32::MAX` when none is marked.
pub open spec fn min_marked_priority(s: Seq<TaskNode>, mask: Seq<bool>, k: int) -> u32
    decreases k,
{
    if k <= 0 {
        u32::MAX
    } else {
        let m = min_marked_priority(s, mask, k - 1);
        let p = priority_rank(s[k - 1].frontmatter.priority);
        if mask[k - 1] && p < m {
            p
        } else {
            m
        }
    }
}

/// A task's effective priority: the lowest priority value among the task
/// itself and the tasks it blocks transitively (unset counts as `u32::MAX`).
pub open spec fn effective_priority(s: Seq<TaskNode>, n: TaskNode) -> u32 {
    let own = priority_rank(n.frontmatter.priority);
    let down = min_marked_priority(s, blocked_by_task(s, id_of(n)), s.len() as int);
    if down < own {
        down
    } else {
        own
    }
}

/// The ranking of tasks: lower effective priority first, then lower own
/// priority (unset last), then more transitively blocked work, then earlier
/// creation (unset first), then task ID.
pub open spec fn next_key_order(s: Seq<TaskNode>, a: TaskNode, b: TaskNode) -> Order {
    let ea = effective_priority(s, a);
    let eb = effective_priority(s, b);
    let ca = blocking_count(s, id_of(a));
    let cb = blocking_count(s, id_of(b));
    let pa = priority_rank(a.frontmatter.priority);
    let pb = priority_rank(b.frontmatter.priority);
    let t = opt_time_order(a.frontmatter.created_at, b.frontmatter.created_at);
    if ea < eb {
        Order::Less
    } else if ea > eb {
        Order::Greater
    } else if pa < pb {
        Order::Less
    } else if pa > pb {
        Order::Greater
    } else if ca > cb {
        Order::Less
    } else if ca < cb {
        Order::Greater
    } else if t != Order::Equal {
        t
    } else {
        seq_order(id_of(a), id_of(b))
    }
}

/// What the ranking needs to know of a task from the graph: how many tasks
/// it blocks and its effective priority.
#[derive(Clone, Copy)]
pub struct RankInfo {
    pub count: usize,
    pub effective: u32,
}

/// `i` holds the blocking count and effective priority of task `n` in `s`.
pub open spec fn rank_ok(s: Seq<TaskNode>, n: TaskNode, i: RankInfo) -> bool {
    i.count == blocking_count(s, id_of(n)) && i.effective == effective_priority(s, n)
}

/// `a` ranks strictly before `b` for `next`.
pub open spec fn next_before(s: Seq<TaskNode>, a: TaskNode, b: TaskNode) -> bool {
    next_key_order(s, a, b) == Order::Less
}

/// The tasks behind a list of references.
pub open spec fn deref_nodes(r: Seq<&TaskNode>) -> Seq<TaskNode> {
    r.map_values(|x: &TaskNode| *x)
}

/// How many times a list of prerequisites names `id`.
pub open spec fn times_named(needs: Seq<Seq<char>>, id: Seq<char>) -> nat {
    needs.filter(|d: Seq<char>| d == id).len()
}

/// The dependents of task `id`, in graph order: each task's ID once for
/// every time it lists `id` among its prerequisites.
pub open spec fn dependents_listed(s: Seq<TaskNode>, id: Seq<char>) -> Seq<Seq<char>>
    decreases s.len(),
{
    if s.len() == 0 {
        Seq::empty()
    } else {
        let m = s.last();
        dependents_listed(s.drop_last(), id) + Seq::new(
            times_named(m.frontmatter.needs.deep_view(), id),
            |_k: int| id_of(m),
        )
    }
}

/// A task with ID `id` exists and is actionable.
pub open spec fn live_id(s: Seq<TaskNode>, id: Seq<char>) -> bool {
    exists|j: int| 0 <= j < s.len() && #[trigger] id_of(s[j]) == id && s[j].frontmatter.status is Live
}

/// Appends `m`'s ID once for every time `m` lists `task_id` as a prerequisite.
fn push_listings(out: &mut Vec<String>, m: &TaskNode, task_id: &str)
    ensures
        final(out).deep_view() == old(out).deep_view() + Seq::new(
            times_named(m.frontmatter.needs.deep_view(), task_id@),
            |_k: int| id_of(*m),
        ),
{
    let ghost start = out.deep_view();
    let ghost needs = m.frontmatter.needs.deep_view();
    let ghost pred = |d: Seq<char>| d == task_id@;
    let mut k: usize = 0;
    while k < m.frontmatter.needs.len()
        invariant
            k <= needs.len(),
            needs == m.frontmatter.needs.deep_view(),
            pred == (|d: Seq<char>| d == task_id@),
            out.deep_view() == start + Seq::new(needs.take(k as int).filter(pred).len(), |_i: int| id_of(*m)),
        decreases needs.len() - k,
    {
        proof {
            let t = needs.take(k + 1);
            assert(t.drop_last() =~= needs.take(k as int));
            assert(t.last() == needs[k as int]);
            assert(needs[k as int] == m.frontmatter.needs@[k as int]@);
            reveal(Seq::filter);
        }
        if same_str(m.frontmatter.needs[k].as_str(), task_id) {
            let ghost before = out.deep_view();
            out.push(m.frontmatter.id.clone());
            assert(out.deep_view() =~= before.push(id_of(*m)));
            assert(needs.take(k + 1).filter(pred) == needs.take(k as int).filter(pred).push(needs[k as int]));
            assert(out.deep_view() =~= start + Seq::new(needs.take(k + 1).filter(pred).len(), |_i: int| id_of(*m)));
        } else {
            assert(needs.take(k + 1).filter(pred) == needs.take(k as int).filter(pred));
        }
        k = k + 1;
    }
    assert(needs.take(needs.len() as int) =~= needs);
}

/// The message when a targeted task ID was found in several files.
pub open spec fn duplicate_target_message(id: Seq<char>) -> Seq<char> {
    "Duplicate task ID '"@ + id + "' found in multiple files; cannot safely target this ID."@
}

/// The message when no task has the targeted ID.
pub open spec fn task_not_found_message(id: Seq<char>) -> Seq<char> {
    "Task '"@ + id + "' not found"@
}

/// In-memory task graph: the loaded tasks and the IDs that were found in
/// more than one file (and therefore left out).
#[derive(Debug)]
pub struct TaskGraph {
    /// The loaded tasks, one per task ID.
    pub nodes: Vec<TaskNode>,
    /// IDs that appeared in multiple task files during load.
    pub duplicate_ids: Vec<String>,
}

impl TaskGraph {
    /// Each task ID names at most one node.
    pub open spec fn wf(&self) -> bool {
        distinct_ids(self.nodes@)
    }

    /// Creates a graph from nodes with distinct task IDs.
    pub fn new(nodes: Vec<TaskNode>) -> (g: Self)
        requires
            distinct_ids(nodes@),
        ensures
            g.wf(),
            g.nodes@ == nodes@,
            g.duplicate_ids@.len() == 0,
    {
        TaskGraph { nodes, duplicate_ids: Vec::new() }
    }

    /// Creates a graph from nodes with distinct task IDs and the IDs that were
    /// found in several files.
    pub fn new_with_duplicates(nodes: Vec<TaskNode>, duplicate_ids: Vec<String>) -> (g: Self)
        requires
            distinct_ids(nodes@),
        ensures
            g.wf(),
            g.nodes@ == nodes@,
            g.duplicate_ids@ == duplicate_ids@,
    {
        TaskGraph { nodes, duplicate_ids }
    }

    /// The position of the node with the given ID, if any.
    pub fn find(&self, task_id: &str) -> (r: Option<usize>)
        ensures
            r matches Some(i) ==> i < self.nodes.len() && id_of(self.nodes@[i as int]) == task_id@,
            r is None <==> !has_id(self.nodes@, task_id@),
    {
        let mut i: usize = 0;
        while i < self.nodes.len()
            invariant
                i <= self.nodes.len(),
                forall|k: int| 0 <= k < i ==> #[trigger] id_of(self.nodes@[k]) != task_id@,
            decreases self.nodes.len() - i,
        {
            if same_str(self.nodes[i].frontmatter.id.as_str(), task_id) {
                assert(id_of(self.nodes@[i as int]) == task_id@);
                return Some(i);
            }
            i = i + 1;
        }
        None
    }

    /// Whether a node with the given ID exists.
    pub fn contains_key(&self, task_id: &str) -> (r: bool)
        ensures
            r == has_id(self.nodes@, task_id@),
    {
        self.find(task_id).is_some()
    }

    /// The node with the given ID, if any.
    pub fn get(&self, task_id: &str) -> (r: Option<&TaskNode>)
        requires
            self.wf(),
        ensures
            r is None <==> !has_id(self.nodes@, task_id@),
            r matches Some(n) ==> id_of(*n) == task_id@ && self.nodes@.contains(*n),
    {
        match self.find(task_id) {
            Some(i) => {
                assert(self.nodes@[i as int] == self.nodes@[i as int]);
                Some(&self.nodes[i])
            },
            None => None,
        }
    }

    /// The IDs of the tasks that need task `task_id`, in graph order, each
    /// once for every time it lists `task_id` among its prerequisites.
    pub fn blocking(&self, task_id: &str) -> (r: Vec<String>)
        ensures
            r.deep_view() == dependents_listed(self.nodes@, task_id@),
    {
        let ghost g = self.nodes@;
        let mut r: Vec<String> = Vec::new();
        let mut j: usize = 0;
        while j < self.nodes.len()
            invariant
                g == self.nodes@,
                j <= g.len(),
                r.deep_view() == dependents_listed(g.take(j as int), task_id@),
            decreases g.len() - j,
        {
            proof {
                let t = g.take(j + 1);
                assert(t.drop_last() =~= g.take(j as int));
                assert(t.last() == g[j as int]);
            }
            push_listings(&mut r, &self.nodes[j], task_id);
            j = j + 1;
        }
        assert(g.take(g.len() as int) =~= g);
        r
    }

    /// Finds the task that `update` is to change: an error when the ID was
    /// found in several files, or when no task has it.
    pub fn locate_task(&self, task_id: &str) -> (r: Result<usize, String>)
        ensures
            r is Ok <==> !self.duplicate_ids.deep_view().contains(task_id@) && has_id(self.nodes@, task_id@),
            match r {
                Ok(k) => k < self.nodes.len() && id_of(self.nodes@[k as int]) == task_id@,
                Err(m) => m@ == if self.duplicate_ids.deep_view().contains(task_id@) {
                    duplicate_target_message(task_id@)
                } else {
                    task_not_found_message(task_id@)
                },
            },
    {
        if self.is_duplicate_id(task_id) {
            let mut m = String::from_str("Duplicate task ID '");
            m.append(task_id);
            m.append("' found in multiple files; cannot safely target this ID.");
            return Err(m);
        }
        match self.find(task_id) {
            Some(k) => Ok(k),
            None => {
                let mut m = String::from_str("Task '");
                m.append(task_id);
                m.append("' not found");
                Err(m)
            },
        }
    }

    /// Whether the given ID was found in multiple files.
    pub fn is_duplicate_id(&self, task_id: &str) -> (r: bool)
        ensures
            r == self.duplicate_ids.deep_view().contains(task_id@),
    {
        contains_str(&self.duplicate_ids, task_id)
    }

    /// Whether every prerequisite of node `n` exists and is terminal.
    fn needs_all_closed(&self, n: &TaskNode) -> (r: bool)
        requires
            self.wf(),
        ensures
            r == (forall|k: int|
                0 <= k < n.frontmatter.needs@.len() ==> need_closed(self.nodes@, #[trigger] n.frontmatter.needs@[k]@)),
    {
        let mut k: usize = 0;
        while k < n.frontmatter.needs.len()
            invariant
                self.wf(),
                k <= n.frontmatter.needs.len(),
                forall|kk: int| 0 <= kk < k ==> need_closed(self.nodes@, #[trigger] n.frontmatter.needs@[kk]@),
            decreases n.frontmatter.needs.len() - k,
        {
            match self.find(n.frontmatter.needs[k].as_str()) {
                Some(j) => {
                    if !self.nodes[j].frontmatter.status.is_closed() {
                        proof {
                            if need_closed(self.nodes@, n.frontmatter.needs@[k as int]@) {
                                let jj = choose|jj: int|
                                    0 <= jj < self.nodes@.len() && #[trigger] id_of(self.nodes@[jj]) == n.frontmatter.needs@[k as int]@
                                        && self.nodes@[jj].frontmatter.status is Closed;
                                assert(id_of(self.nodes@[jj]) == id_of(self.nodes@[j as int]));
                            }
                            assert(!need_closed(self.nodes@, n.frontmatter.needs@[k as int]@));
                        }
                        return false;
                    }
                },
                None => {
                    proof {
                        if need_closed(self.nodes@, n.frontmatter.needs@[k as int]@) {
                            let jj = choose|jj: int|
                                0 <= jj < self.nodes@.len() && #[trigger] id_of(self.nodes@[jj]) == n.frontmatter.needs@[k as int]@
                                    && self.nodes@[jj].frontmatter.status is Closed;
                            assert(has_id(self.nodes@, n.frontmatter.needs@[k as int]@));
                        }
                        assert(!need_closed(self.nodes@, n.frontmatter.needs@[k as int]@));
                    }
                    return false;
                },
            }
            k = k + 1;
        }
        true
    }

    /// Whether a task is ready: it exists, its status is actionable, and every
    /// prerequisite exists and is terminal.
    pub fn is_ready(&self, task_id: &str) -> (r: bool)
        requires
            self.wf(),
        ensures
            r == ready(self.nodes@, task_id@),
    {
        match self.find(task_id) {
            None => false,
            Some(i) => {
                let node = &self.nodes[i];
                let r = node.frontmatter.status.is_actionable() && self.needs_all_closed(node);
                proof {
                    if ready(self.nodes@, task_id@) {
                        let ii = choose|ii: int|
                            0 <= ii < self.nodes@.len() && #[trigger] id_of(self.nodes@[ii]) == task_id@
                                && node_ready(self.nodes@, self.nodes@[ii]);
                        assert(id_of(self.nodes@[ii]) == id_of(self.nodes@[i as int]));
                    }
                }
                r
            },
        }
    }
}

/// References to every node, in order.
pub fn refs_of(v: &Vec<TaskNode>) -> (r: Vec<&TaskNode>)
    ensures
        deref_nodes(r@) == v@,
{
    let mut r: Vec<&TaskNode> = Vec::new();
    let mut i: usize = 0;
    while i < v.len()
        invariant
            i <= v.len(),
            r.len() == i,
            forall|k: int| 0 <= k < i ==> *r@[k] == v@[k],
        decreases v.len() - i,
    {
        r.push(&v[i]);
        i = i + 1;
    }
    assert(deref_nodes(r@) =~= v@);
    r
}

/// Successor lists of the dependency graph: `adj[i]` lists, in order, the
/// nodes that need node `i`.
pub fn dependents_lists(nodes: &Vec<&TaskNode>) -> (adj: Vec<Vec<usize>>)
    ensures
        adj_matches(adj.deep_view(), dep_edge(deref_nodes(nodes@)), nodes.len() as int),
{
    let n = nodes.len();
    let ghost s = deref_nodes(nodes@);
    let mut adj: Vec<Vec<usize>> = Vec::new();
    let mut i: usize = 0;
    while i < n
        invariant
            n == nodes.len(),
            s == deref_nodes(nodes@),
            i <= n,
            adj.len() == i,
            forall|a: int, k: int| 0 <= a < i && 0 <= k < adj@[a]@.len() ==> (#[trigger] adj@[a]@[k]) < n,
            forall|a: int, j: int|
                0 <= a < i && 0 <= j < n ==> (adj@[a]@.contains(j as usize) <==> #[trigger] dep_edge(s)(a, j)),
        decreases n - i,
    {
        let mut row: Vec<usize> = Vec::new();
        let mut j: usize = 0;
        while j < n
            invariant
                n == nodes.len(),
                s == deref_nodes(nodes@),
                i < n,
                j <= n,
                forall|k: int| 0 <= k < row@.len() ==> (#[trigger] row@[k]) < j,
                forall|jj: int| 0 <= jj < j ==> (row@.contains(jj as usize) <==> #[trigger] dep_edge(s)(i as int, jj)),
            decreases n - j,
        {
            let e = contains_str(&nodes[j].frontmatter.needs, nodes[i].frontmatter.id.as_str());
            let ghost old_row = row@;
            if e {
                row.push(j);
            }
            proof {
                assert(e == dep_edge(s)(i as int, j as int));
                assert forall|jj: int| 0 <= jj < j + 1 implies (row@.contains(jj as usize) <==> #[trigger] dep_edge(
                    s,
                )(i as int, jj)) by {
                    if jj < j {
                        if row@.contains(jj as usize) {
                            let k = choose|k: int| 0 <= k < row@.len() && row@[k] == jj as usize;
                            if e && k == old_row.len() {
                            } else {
                                assert(old_row[k] == jj as usize);
                            }
                        }
                        if old_row.contains(jj as usize) {
                            let k = choose|k: int| 0 <= k < old_row.len() && old_row[k] == jj as usize;
                            assert(row@[k] == jj as usize);
                        }
                    } else {
                        if e {
                            assert(row@[old_row.len() as int] == j);
                        } else {
                            if row@.contains(jj as usize) {
                                let k = choose|k: int| 0 <= k < row@.len() && row@[k] == jj as usize;
                                assert(old_row[k] < j);
                            }
                        }
                    }
                }
            }
            j = j + 1;
        }
        adj.push(row);
        proof {
            assert forall|a: int, j: int|
                0 <= a < i + 1 && 0 <= j < n implies (adj@[a]@.contains(j as usize) <==> #[trigger] dep_edge(s)(a, j)) by {
            }
        }
        i = i + 1;
    }
    proof {
        let g = adj.deep_view();
        assert forall|a: int| 0 <= a < n implies #[trigger] g[a] == adj@[a]@ by {}
    }
    adj
}

impl TaskGraph {
    /// Marks the actionable tasks, other than `task_id`, that `task_id`
    /// blocks transitively: those reached from it along "is needed by" edges
    /// passing only through actionable tasks.
    pub fn blocked_mask(&self, task_id: &str) -> (r: Vec<bool>)
        ensures
            r@ == blocked_by_task(self.nodes@, task_id@),
    {
        let n = self.nodes.len();
        let ghost s = self.nodes@;
        let refs = refs_of(&self.nodes);
        let adj = dependents_lists(&refs);
        let mut allowed: Vec<bool> = Vec::new();
        let mut init: Vec<bool> = Vec::new();
        let mut j: usize = 0;
        while j < n
            invariant
                n == self.nodes.len(),
                s == self.nodes@,
                j <= n,
                allowed.len() == j,
                init.len() == j,
                forall|k: int| 0 <= k < j ==> allowed@[k] == blocking_allowed(s, task_id@)[k],
                forall|k: int| 0 <= k < j ==> init@[k] == direct_dependents(s, task_id@)[k],
            decreases n - j,
        {
            let node = &self.nodes[j];
            let a = node.frontmatter.status.is_actionable() && !same_str(node.frontmatter.id.as_str(), task_id);
            allowed.push(a);
            init.push(contains_str(&node.frontmatter.needs, task_id));
            j = j + 1;
        }
        assert(allowed@ =~= blocking_allowed(s, task_id@));
        assert(init@ =~= direct_dependents(s, task_id@));
        let r = reach_from(&adj, Ghost(dep_edge(s)), &allowed, &init);
        assert(r@ =~= blocked_by_task(s, task_id@));
        r
    }

    /// The number of actionable tasks, other than `task_id`, that `task_id`
    /// blocks transitively.
    pub fn count_blocking(&self, task_id: &str) -> (c: usize)
        ensures
            c == blocking_count(self.nodes@, task_id@),
    {
        let mask = self.blocked_mask(task_id);
        count_marked(&mask)
    }

    /// The blocking count and effective priority of a task.
    pub fn rank_info(&self, n: &TaskNode) -> (i: RankInfo)
        ensures
            rank_ok(self.nodes@, *n, i),
    {
        let mask = self.blocked_mask(n.frontmatter.id.as_str());
        let count = count_marked(&mask);
        let mut m: u32 = u32::MAX;
        let mut k: usize = 0;
        while k < mask.len()
            invariant
                mask.len() == self.nodes.len(),
                k <= mask.len(),
                m == min_marked_priority(self.nodes@, mask@, k as int),
            decreases mask.len() - k,
        {
            let p = match self.nodes[k].frontmatter.priority {
                Some(q) => q.get(),
                None => u32::MAX,
            };
            if mask[k] && p < m {
                m = p;
            }
            k = k + 1;
        }
        let own = match n.frontmatter.priority {
            Some(q) => q.get(),
            None => u32::MAX,
        };
        let effective = if m < own {
            m
        } else {
            own
        };
        RankInfo { count, effective }
    }
}

/// Comparing two tasks the other way round gives the opposite outcome, and
/// only tasks with the same ID compare equal.
pub proof fn lemma_next_key_flip(s: Seq<TaskNode>, a: TaskNode, b: TaskNode)
    ensures
        next_key_order(s, b, a) == flip(next_key_order(s, a, b)),
        next_key_order(s, a, b) == Order::Equal ==> id_of(a) == id_of(b),
{
    lemma_opt_time_flip(a.frontmatter.created_at, b.frontmatter.created_at);
    lemma_seq_order_flip(id_of(a), id_of(b));
    lemma_seq_order_equal(id_of(a), id_of(b));
}

/// The ranking of tasks is transitive.
pub proof fn lemma_next_key_trans(s: Seq<TaskNode>, a: TaskNode, b: TaskNode, c: TaskNode)
    requires
        next_before(s, a, b),
        next_before(s, b, c),
    ensures
        next_before(s, a, c),
{
    let (ta, tb, tc) = (a.frontmatter.created_at, b.frontmatter.created_at, c.frontmatter.created_at);
    lemma_opt_time_flip(ta, tb);
    lemma_opt_time_flip(tb, tc);
    lemma_opt_time_flip(ta, tc);
    if opt_time_order(ta, tb) != Order::Greater && opt_time_order(tb, tc) != Order::Greater {
        lemma_opt_time_trans(ta, tb, tc);
    }
    if seq_order(id_of(a), id_of(b)) == Order::Less && seq_order(id_of(b), id_of(c)) == Order::Less {
        lemma_seq_order_trans(id_of(a), id_of(b), id_of(c));
    }
    lemma_seq_order_equal(id_of(a), id_of(b));
    lemma_seq_order_equal(id_of(b), id_of(c));
}

/// Whether task `a` ranks strictly before task `b`, given what the graph
/// `g` says of both.
pub(crate) fn key_less(
    Ghost(g): Ghost<Seq<TaskNode>>,
    a: &TaskNode,
    ia: RankInfo,
    b: &TaskNode,
    ib: RankInfo,
) -> (r: bool)
    requires
        rank_ok(g, *a, ia),
        rank_ok(g, *b, ib),
    ensures
        r == next_before(g, *a, *b),
{
    if ia.effective < ib.effective {
        return true;
    }
    if ia.effective > ib.effective {
        return false;
    }
    let fa = &a.frontmatter;
    let fb = &b.frontmatter;
    let pa = match fa.priority {
        Some(p) => p.get(),
        None => u32::MAX,
    };
    let pb = match fb.priority {
        Some(p) => p.get(),
        None => u32::MAX,
    };
    if pa < pb {
        return true;
    }
    if pa > pb {
        return false;
    }
    if ia.count > ib.count {
        return true;
    }
    if ia.count < ib.count {
        return false;
    }
    let t = order_opt_time(fa.created_at, fb.created_at);
    if t != Order::Equal {
        return t == Order::Less;
    }
    order_strs(fa.id.as_str(), fb.id.as_str()) == Order::Less
}

impl TaskGraph {
    /// The tasks that are ready to be worked on, best first (see
    /// [`next_key_order`]): lower effective priority, then lower own priority,
    /// then more transitively blocked work, then earlier creation, then ID.
    pub fn get_next_tasks(&self) -> (r: Vec<&TaskNode>)
        requires
            self.wf(),
        ensures
            forall|k: int|
                0 <= k < r.len() ==> self.nodes@.contains(*r@[k]) && ready(self.nodes@, id_of(*r@[k])),
            forall|i: int|
                0 <= i < self.nodes.len() && ready(self.nodes@, id_of(self.nodes@[i])) ==> deref_nodes(
                    r@,
                ).contains(#[trigger] self.nodes@[i]),
            forall|a: int, b: int| 0 <= a < b < r.len() ==> next_before(self.nodes@, *r@[a], *r@[b]),
            deref_nodes(r@).no_duplicates(),
    {
        let n = self.nodes.len();
        let ghost s = self.nodes@;
        let mut idx: Vec<usize> = Vec::new();
        let mut counts: Vec<RankInfo> = Vec::new();
        let mut i: usize = 0;
        while i < n
            invariant
                n == self.nodes.len(),
                s == self.nodes@,
                self.wf(),
                i <= n,
                counts.len() == i,
                forall|k: int| 0 <= k < idx.len() ==> (#[trigger] idx@[k]) < i,
                forall|k: int, l: int| 0 <= k < l < idx.len() ==> idx@[k] < idx@[l],
                forall|k: int| 0 <= k < idx.len() ==> ready(s, id_of(s[#[trigger] idx@[k] as int])),
                forall|j: int| 0 <= j < i && ready(s, id_of(s[j])) ==> idx@.contains(j as usize),
                forall|j: int| 0 <= j < i && ready(s, id_of(s[j])) ==> rank_ok(s, #[trigger] s[j], counts@[j]),
            decreases n - i,
        {
            let id = self.nodes[i].frontmatter.id.as_str();
            let ghost old_idx = idx@;
            if self.is_ready(id) {
                idx.push(i);
                counts.push(self.rank_info(&self.nodes[i]));
                proof {
                    assert forall|j: int| 0 <= j < i + 1 && ready(s, id_of(s[j])) implies idx@.contains(j as usize) by {
                        if j < i {
                            let k = choose|k: int| 0 <= k < old_idx.len() && old_idx[k] == j as usize;
                            assert(idx@[k] == j as usize);
                        } else {
                            assert(idx@[old_idx.len() as int] == i);
                        }
                    }
                }
            } else {
                counts.push(RankInfo { count: 0, effective: 0 });
            }
            i = i + 1;
        }
        let ghost lt = |a: usize, b: usize| next_before(s, s[a as int], s[b as int]);
        proof {
            assert(idx@.no_duplicates()) by {
                assert forall|a: int, b: int| 0 <= a < idx.len() && 0 <= b < idx.len() && a != b implies idx@[a]
                    != idx@[b] by {
                    if a < b {
                        assert(idx@[a] < idx@[b]);
                    } else {
                        assert(idx@[b] < idx@[a]);
                    }
                }
            }
            assert forall|a: usize| #[trigger] idx@.contains(a) implies !lt(a, a) by {
                lemma_next_key_flip(s, s[a as int], s[a as int]);
            }
            assert forall|a: usize, b: usize|
                idx@.contains(a) && idx@.contains(b) && a != b implies #[trigger] lt(a, b) || #[trigger] lt(b, a) by {
                lemma_next_key_flip(s, s[a as int], s[b as int]);
                let ka = choose|k: int| 0 <= k < idx.len() && idx@[k] == a;
                let kb = choose|k: int| 0 <= k < idx.len() && idx@[k] == b;
                assert(idx@[ka] < n && idx@[kb] < n);
                assert(id_of(s[a as int]) != id_of(s[b as int]));
            }
            assert forall|a: usize, b: usize, c: usize|
                idx@.contains(a) && idx@.contains(b) && idx@.contains(c) && #[trigger] lt(a, b) && #[trigger] lt(
                    b,
                    c,
                ) implies lt(a, c) by {
                lemma_next_key_trans(s, s[a as int], s[b as int], s[c as int]);
            }
        }
        let nodes = &self.nodes;
        let cnt = &counts;
        let less = |a: usize, b: usize| -> (o: bool)
            requires
                a < nodes.len(),
                b < nodes.len(),
                cnt.len() == nodes.len(),
                rank_ok(nodes@, nodes@[a as int], cnt@[a as int]),
                rank_ok(nodes@, nodes@[b as int], cnt@[b as int]),
            ensures
                o == next_before(nodes@, nodes@[a as int], nodes@[b as int]),
            { key_less(Ghost(nodes@), &nodes[a], cnt[a], &nodes[b], cnt[b]) };
        proof {
            assert forall|a: usize, b: usize| idx@.contains(a) && idx@.contains(b) implies #[trigger] less.requires(
                (a, b),
            ) by {
                let ka = choose|k: int| 0 <= k < idx.len() && idx@[k] == a;
                let kb = choose|k: int| 0 <= k < idx.len() && idx@[k] == b;
                assert(idx@[ka] < n && idx@[kb] < n);
                assert(ready(s, id_of(s[idx@[ka] as int])));
                assert(ready(s, id_of(s[idx@[kb] as int])));
            }
        }
        let sorted = sort_by_less(&idx, &less, Ghost(lt));
        let mut r: Vec<&TaskNode> = Vec::new();
        let mut k: usize = 0;
        while k < sorted.len()
            invariant
                k <= sorted.len(),
                s == self.nodes@,
                n == self.nodes.len(),
                same_elements(sorted@, idx@),
                forall|x: int| 0 <= x < idx.len() ==> (#[trigger] idx@[x]) < n,
                r.len() == k,
                forall|kk: int| 0 <= kk < k ==> *r@[kk] == s[#[trigger] sorted@[kk] as int],
            decreases sorted.len() - k,
        {
            assert(sorted@.contains(sorted@[k as int]));
            let x = sorted[k];
            assert(idx@.contains(x));
            r.push(&self.nodes[x]);
            k = k + 1;
        }
        proof {
            assert forall|kk: int| 0 <= kk < r.len() implies self.nodes@.contains(*r@[kk]) && ready(
                self.nodes@,
                id_of(*r@[kk]),
            ) by {
                assert(sorted@.contains(sorted@[kk]));
                let x = choose|x: int| 0 <= x < idx.len() && idx@[x] == sorted@[kk];
                assert(s[sorted@[kk] as int] == s[sorted@[kk] as int]);
            }
            assert forall|j: int| 0 <= j < n && ready(s, id_of(s[j])) implies deref_nodes(r@).contains(
                #[trigger] s[j],
            ) by {
                assert(idx@.contains(j as usize));
                assert(sorted@.contains(j as usize));
                let kk = choose|kk: int| 0 <= kk < sorted.len() && sorted@[kk] == j as usize;
                assert(deref_nodes(r@)[kk] == s[j]);
            }
            assert forall|a: int, b: int| 0 <= a < b < r.len() implies next_before(self.nodes@, *r@[a], *r@[b]) by {
                assert(lt(sorted@[a], sorted@[b]));
            }
            assert forall|a: int, b: int| 0 <= a < r.len() && 0 <= b < r.len() && a != b implies deref_nodes(r@)[a]
                != deref_nodes(r@)[b] by {
                let (x, y) = if a < b { (a, b) } else { (b, a) };
                assert(next_before(self.nodes@, *r@[x], *r@[y]));
                if *r@[x] == *r@[y] {
                    lemma_seq_order_equal(id_of(*r@[x]), id_of(*r@[x]));
                }
            }
        }
        r
    }
}

/// A task is not ready while one of its prerequisites names no task or a
/// task that is still workable.
pub proof fn lemma_open_need_not_ready(s: Seq<TaskNode>, i: int, need: Seq<char>)
    requires
        distinct_ids(s),
        0 <= i < s.len(),
        needs_id(s[i], need),
        !has_id(s, need) || exists|j: int| 0 <= j < s.len() && #[trigger] id_of(s[j]) == need && s[j].frontmatter.status is Live,
    ensures
        !ready(s, id_of(s[i])),
{
    if ready(s, id_of(s[i])) {
        let w = choose|w: int| 0 <= w < s.len() && #[trigger] id_of(s[w]) == id_of(s[i]) && node_ready(s, s[w]);
        assert(w == i);
        let k = choose|k: int| 0 <= k < s[i].frontmatter.needs.deep_view().len() && s[i].frontmatter.needs.deep_view()[k] == need;
        assert(s[i].frontmatter.needs@[k]@ == need);
        assert(need_closed(s, s[i].frontmatter.needs@[k]@));
        let j = choose|j: int| 0 <= j < s.len() && #[trigger] id_of(s[j]) == need && s[j].frontmatter.status is Closed;
        if exists|j2: int| 0 <= j2 < s.len() && #[trigger] id_of(s[j2]) == need && s[j2].frontmatter.status is Live {
            let j2 = choose|j2: int| 0 <= j2 < s.len() && #[trigger] id_of(s[j2]) == need && s[j2].frontmatter.status is Live;
            assert(j2 == j);
        }
    }
}

/// Two workable tasks that need each other are never ready: neither can be
/// started before the other is closed.
pub proof fn lemma_mutual_needs_never_ready(s: Seq<TaskNode>, i: int, j: int)
    requires
        distinct_ids(s),
        0 <= i < s.len(),
        0 <= j < s.len(),
        needs_id(s[i], id_of(s[j])),
        needs_id(s[j], id_of(s[i])),
        s[i].frontmatter.status is Live,
        s[j].frontmatter.status is Live,
    ensures
        !ready(s, id_of(s[i])),
        !ready(s, id_of(s[j])),
{
    lemma_open_need_not_ready(s, i, id_of(s[j]));
    lemma_open_need_not_ready(s, j, id_of(s[i]));
}

/// The tasks a task blocks are workable and other than itself, so its
/// blocking count leaves out closed tasks and itself, and is below the number
/// of tasks when it is one of them.
pub proof fn lemma_blocked_tasks_live_others(s: Seq<TaskNode>, i: int)
    requires
        0 <= i < s.len(),
    ensures
        forall|j: int|
            0 <= j < s.len() && #[trigger] blocked_by_task(s, id_of(s[i]))[j] ==> s[j].frontmatter.status is Live && id_of(
                s[j],
            ) != id_of(s[i]),
        blocking_count(s, id_of(s[i])) < s.len(),
{
    let id = id_of(s[i]);
    let m = blocked_by_task(s, id);
    let allowed = blocking_allowed(s, id);
    assert forall|j: int| 0 <= j < s.len() && #[trigger] m[j] implies s[j].frontmatter.status is Live && id_of(s[j]) != id by {
        let p = choose|p: Seq<int>| #[trigger] is_walk(dep_edge(s), allowed, direct_dependents(s, id), p) && p.last() == j;
        assert(allowed[p[p.len() - 1]]);
    }
    let full = Seq::new(s.len(), |j: int| j != i);
    assert forall|j: int| 0 <= j < m.len() && #[trigger] m[j] implies full[j] by {}
    let all = Seq::new(s.len(), |j: int| true);
    assert forall|j: int| 0 <= j < full.len() && #[trigger] full[j] implies all[j] by {}
    lemma_count_true_mono(m, full);
    lemma_count_true_mono(full, all);
    lemma_count_true_bound(all);
    assert(!full[i] && all[i]);
}

/// The lowest priority among the marked tasks below `k` is at most the
/// priority of each of them.
proof fn lemma_min_marked_le(s: Seq<TaskNode>, mask: Seq<bool>, k: int, j: int)
    requires
        0 <= j < k <= s.len(),
        k <= mask.len(),
        mask[j],
    ensures
        min_marked_priority(s, mask, k) <= priority_rank(s[j].frontmatter.priority),
    decreases k,
{
    if j < k - 1 {
        lemma_min_marked_le(s, mask, k - 1, j);
    }
}

/// A task ranks with a priority no worse than its own, and no worse than
/// that of any task it blocks: a blocker of urgent work is treated as
/// urgent.
pub proof fn lemma_blocker_inherits_priority(s: Seq<TaskNode>, a: int, j: int)
    requires
        0 <= a < s.len(),
        0 <= j < s.len(),
        blocked_by_task(s, id_of(s[a]))[j],
    ensures
        effective_priority(s, s[a]) <= priority_rank(s[a].frontmatter.priority),
        effective_priority(s, s[a]) <= priority_rank(s[j].frontmatter.priority),
{
    lemma_min_marked_le(s, blocked_by_task(s, id_of(s[a])), s.len() as int, j);
}

/// With no task marked below `k`, the lowest marked priority is the
/// `u32::MAX` of none.
proof fn lemma_min_marked_none(s: Seq<TaskNode>, mask: Seq<bool>, k: int)
    requires
        k <= mask.len(),
        forall|j: int| 0 <= j < mask.len() ==> !#[trigger] mask[j],
    ensures
        min_marked_priority(s, mask, k) == u32::MAX,
    decreases k,
{
    if k > 0 {
        lemma_min_marked_none(s, mask, k - 1);
    }
}

/// A task that blocks nothing ranks with its own priority.
proof fn lemma_unblocking_effective(s: Seq<TaskNode>, n: TaskNode)
    requires
        blocking_count(s, id_of(n)) == 0,
    ensures
        effective_priority(s, n) == priority_rank(n.frontmatter.priority),
{
    let mask = blocked_by_task(s, id_of(n));
    let none = Seq::new(mask.len(), |j: int| false);
    lemma_count_true_mono(none, mask);
    assert forall|j: int| 0 <= j < mask.len() implies !#[trigger] mask[j] by {
        assert(!none[j]);
    }
    lemma_min_marked_none(s, mask, s.len() as int);
}

/// Among tasks that block no other task, `next` ranks by priority (unset
/// last), then by creation time (unset first), then by ID.
pub proof fn lemma_unblocking_tasks_rank(s: Seq<TaskNode>, a: TaskNode, b: TaskNode)
    requires
        blocking_count(s, id_of(a)) == 0,
        blocking_count(s, id_of(b)) == 0,
    ensures
        next_key_order(s, a, b) == {
            let pa = priority_rank(a.frontmatter.priority);
            let pb = priority_rank(b.frontmatter.priority);
            let t = opt_time_order(a.frontmatter.created_at, b.frontmatter.created_at);
            if pa < pb {
                Order::Less
            } else if pa > pb {
                Order::Greater
            } else if t != Order::Equal {
                t
            } else {
                seq_order(id_of(a), id_of(b))
            }
        },
{
    lemma_unblocking_effective(s, a);
    lemma_unblocking_effective(s, b);
}

/// How `next` ranks two tasks: the lower effective priority first; with
/// equal effective priorities, the lower own priority (unset counting as
/// the highest value); then the task that transitively blocks more work;
/// then the one created earlier (by the total nanoseconds since the epoch,
/// an unset creation time first).
pub proof fn lemma_next_rank(s: Seq<TaskNode>, a: TaskNode, b: TaskNode)
    ensures
        effective_priority(s, a) < effective_priority(s, b) ==> next_before(s, a, b),
        ({
            let same_eff = effective_priority(s, a) == effective_priority(s, b);
            let pa = priority_rank(a.frontmatter.priority);
            let pb = priority_rank(b.frontmatter.priority);
            let same_count = blocking_count(s, id_of(a)) == blocking_count(s, id_of(b));
            &&& same_eff && pa < pb ==> next_before(s, a, b)
            &&& same_eff && pa == pb && blocking_count(s, id_of(a)) > blocking_count(s, id_of(b)) ==> next_before(
                s,
                a,
                b,
            )
            &&& same_eff && pa == pb && same_count && a.frontmatter.created_at is None
                && b.frontmatter.created_at is Some ==> next_before(s, a, b)
            &&& forall|x: Timestamp, y: Timestamp|
                same_eff && pa == pb && same_count && a.frontmatter.created_at == Some(x)
                    && b.frontmatter.created_at == Some(y) && x.nanos < 1_000_000_000 && y.nanos < 1_000_000_000
                    && #[trigger] (x.secs * 1_000_000_000 + x.nanos) < #[trigger] (y.secs * 1_000_000_000 + y.nanos)
                    ==> next_before(s, a, b)
        }),
{
    assert forall|x: Timestamp, y: Timestamp|
        effective_priority(s, a) == effective_priority(s, b) && priority_rank(a.frontmatter.priority) == priority_rank(
            b.frontmatter.priority,
        ) && blocking_count(s, id_of(a)) == blocking_count(s, id_of(b)) && a.frontmatter.created_at == Some(x)
            && b.frontmatter.created_at == Some(y) && x.nanos < 1_000_000_000 && y.nanos < 1_000_000_000
            && #[trigger] (x.secs * 1_000_000_000 + x.nanos) < #[trigger] (y.secs * 1_000_000_000 + y.nanos)
        implies next_before(s, a, b) by {
        crate::models::lemma_time_order_total(x, y);
    }
}

/// In the list `next` gives, a task comes before every task it ranks
/// ahead of (see [`lemma_next_rank`]): with equal effective and own
/// priorities, the task that transitively blocks more work is listed first.
pub proof fn lemma_next_blocks_more_first(s: Seq<TaskNode>, r: Seq<TaskNode>, i: int, j: int)
    requires
        forall|a: int, b: int| 0 <= a < b < r.len() ==> next_before(s, r[a], r[b]),
        0 <= i < r.len(),
        0 <= j < r.len(),
        effective_priority(s, r[i]) == effective_priority(s, r[j]),
        priority_rank(r[i].frontmatter.priority) == priority_rank(r[j].frontmatter.priority),
        blocking_count(s, id_of(r[i])) > blocking_count(s, id_of(r[j])),
    ensures
        i < j,
{
    lemma_next_rank(s, r[i], r[j]);
    lemma_next_key_flip(s, r[i], r[j]);
    if j < i {
        assert(next_before(s, r[j], r[i]));
    }
}
} // verus!
