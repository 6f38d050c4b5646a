//! Building the task graph from the parsed task files: an ID found in more
//! than one file is left out and reported.
use crate::graph::{distinct_ids, id_of, TaskGraph};
use crate::models::TaskNode;
use crate::strs::{sorted_union, strictly_sorted};
use crate::text::same_str;
use vstd::prelude::*;

verus! {

/// Two of the tasks have the ID `id`.
pub open spec fn shared_id(s: Seq<TaskNode>, id: Seq<char>) -> bool {
    exists|a: int, b: int| 0 <= a < b < s.len() && #[trigger] id_of(s[a]) == id && #[trigger] id_of(s[b]) == id
}

/// The tasks whose ID no other task has, in their order.
pub open spec fn unique_nodes(s: Seq<TaskNode>) -> Seq<TaskNode> {
    s.filter(|n: TaskNode| !shared_id(s, id_of(n)))
}

/// Whether another task than the one at position `i` has its ID.
fn id_shared_at(s: &Vec<TaskNode>, i: usize) -> (r: bool)
    requires
        i < s.len(),
    ensures
        r == shared_id(s@, id_of(s@[i as int])),
{
    let ghost id = id_of(s@[i as int]);
    let mut j: usize = 0;
    while j < s.len()
        invariant
            i < s.len(),
            j <= s.len(),
            id == id_of(s@[i as int]),
            forall|k: int| 0 <= k < j && k != i ==> id_of(#[trigger] s@[k]) != id,
        decreases s.len() - j,
    {
        if j != i && same_str(s[j].frontmatter.id.as_str(), s[i].frontmatter.id.as_str()) {
            proof {
                if j < i {
                    assert(id_of(s@[j as int]) == id && id_of(s@[i as int]) == id);
                } else {
                    assert(id_of(s@[i as int]) == id && id_of(s@[j as int]) == id);
                }
            }
            return true;
        }
        j = j + 1;
    }
    proof {
        if shared_id(s@, id) {
            let (a, b) = choose|a: int, b: int|
                0 <= a < b < s@.len() && #[trigger] id_of(s@[a]) == id && #[trigger] id_of(s@[b]) == id;
            if a != i {
                assert(id_of(s@[a]) != id);
            } else {
                assert(id_of(s@[b]) != id);
            }
        }
    }
    false
}

impl TaskGraph {
    /// The graph of the parsed tasks: every task whose ID no other task has,
    /// in order, and, sorted and each once, the IDs that several tasks have.
    pub fn from_parsed(parsed: Vec<TaskNode>) -> (g: TaskGraph)
        ensures
            g.wf(),
            g.nodes@ == unique_nodes(parsed@),
            strictly_sorted(g.duplicate_ids.deep_view()),
            forall|x: Seq<char>| #[trigger] g.duplicate_ids.deep_view().contains(x) <==> shared_id(parsed@, x),
    {
        let ghost s = parsed@;
        let n = parsed.len();
        let mut shared: Vec<bool> = Vec::new();
        let mut dups: Vec<String> = Vec::new();
        let mut i: usize = 0;
        while i < n
            invariant
                n == parsed.len(),
                s == parsed@,
                i <= n,
                shared.len() == i,
                forall|k: int| 0 <= k < i ==> shared@[k] == shared_id(s, id_of(#[trigger] s[k])),
                forall|x: Seq<char>|
                    #[trigger] dups.deep_view().contains(x) <==> exists|k: int|
                        0 <= k < i && shared_id(s, x) && #[trigger] id_of(s[k]) == x,
            decreases n - i,
        {
            let b = id_shared_at(&parsed, i);
            shared.push(b);
            let ghost before = dups.deep_view();
            if b {
                dups.push(parsed[i].frontmatter.id.clone());
                proof {
                    assert(dups.deep_view() =~= before.push(id_of(s[i as int])));
                    assert forall|x: Seq<char>|
                        #[trigger] dups.deep_view().contains(x) <==> exists|k: int|
                            0 <= k < i + 1 && shared_id(s, x) && #[trigger] id_of(s[k]) == x by {
                        crate::sorting::lemma_push_contains(before, id_of(s[i as int]), x);
                        if x == id_of(s[i as int]) {
                            assert(0 <= i < i + 1 && shared_id(s, x) && id_of(s[i as int]) == x);
                        }
                        if before.contains(x) {
                            let k = choose|k: int| 0 <= k < i && shared_id(s, x) && #[trigger] id_of(s[k]) == x;
                            assert(0 <= k < i + 1 && shared_id(s, x) && id_of(s[k]) == x);
                        }
                        if exists|k: int| 0 <= k < i + 1 && shared_id(s, x) && #[trigger] id_of(s[k]) == x {
                            let k = choose|k: int| 0 <= k < i + 1 && shared_id(s, x) && #[trigger] id_of(s[k]) == x;
                            if k < i {
                                assert(before.contains(x));
                            }
                        }
                    }
                }
            } else {
                proof {
                    assert forall|x: Seq<char>|
                        #[trigger] dups.deep_view().contains(x) <==> exists|k: int|
                            0 <= k < i + 1 && shared_id(s, x) && #[trigger] id_of(s[k]) == x by {
                        if exists|k: int| 0 <= k < i + 1 && shared_id(s, x) && #[trigger] id_of(s[k]) == x {
                            let k = choose|k: int| 0 <= k < i + 1 && shared_id(s, x) && #[trigger] id_of(s[k]) == x;
                            if k == i {
                                assert(shared_id(s, id_of(s[i as int])));
                            }
                        }
                    }
                }
            }
            i = i + 1;
        }
        proof {
            assert forall|x: Seq<char>| #[trigger] dups.deep_view().contains(x) <==> shared_id(s, x) by {
                if shared_id(s, x) {
                    let (a, b) = choose|a: int, b: int|
                        0 <= a < b < s.len() && #[trigger] id_of(s[a]) == x && #[trigger] id_of(s[b]) == x;
                    assert(0 <= a < n && shared_id(s, x) && id_of(s[a]) == x);
                }
            }
        }
        let ghost pred = |m: TaskNode| !shared_id(s, id_of(m));
        let mut rest = parsed;
        let mut nodes: Vec<TaskNode> = Vec::new();
        let mut j: usize = 0;
        while j < n
            invariant
                n == s.len(),
                j <= n,
                shared.len() == n,
                forall|k: int| 0 <= k < n ==> shared@[k] == shared_id(s, id_of(#[trigger] s[k])),
                rest@ == s.skip(j as int),
                pred == (|m: TaskNode| !shared_id(s, id_of(m))),
                nodes@ == s.take(j as int).filter(pred),
                distinct_ids(nodes@),
                forall|m: int| 0 <= m < nodes@.len() ==> exists|k: int| 0 <= k < j && #[trigger] id_of(s[k]) == id_of(#[trigger] nodes@[m]),
            decreases n - j,
        {
            let x = rest.remove(0);
            proof {
                assert(x == s[j as int]);
                assert(rest@ =~= s.skip(j + 1));
                let t = s.take(j + 1);
                assert(t.drop_last() =~= s.take(j as int));
                assert(t.last() == x);
                reveal(Seq::filter);
            }
            if !shared[j] {
                let ghost before = nodes@;
                nodes.push(x);
                proof {
                    assert forall|a: int, b: int|
                        0 <= a < nodes@.len() && 0 <= b < nodes@.len() && a != b implies #[trigger] id_of(nodes@[a])
                        != #[trigger] id_of(nodes@[b]) by {
                        if a == before.len() || b == before.len() {
                            let m = if a == before.len() { b } else { a };
                            assert(nodes@[m] == before[m]);
                            let k = choose|k: int| 0 <= k < j && #[trigger] id_of(s[k]) == id_of(before[m]);
                            if id_of(nodes@[a]) == id_of(nodes@[b]) {
                                assert(id_of(s[k]) == id_of(s[j as int]));
                                assert(shared_id(s, id_of(s[j as int])));
                            }
                        } else {
                            assert(nodes@[a] == before[a] && nodes@[b] == before[b]);
                        }
                    }
                    assert forall|m: int| 0 <= m < nodes@.len() implies exists|k: int|
                        0 <= k < j + 1 && #[trigger] id_of(s[k]) == id_of(#[trigger] nodes@[m]) by {
                        if m < before.len() {
                            assert(nodes@[m] == before[m]);
                            let k = choose|k: int| 0 <= k < j && #[trigger] id_of(s[k]) == id_of(before[m]);
                            assert(0 <= k < j + 1 && id_of(s[k]) == id_of(nodes@[m]));
                        } else {
                            assert(id_of(s[j as int]) == id_of(nodes@[m]));
                        }
                    }
                }
            } else {
                proof {
                    assert forall|m: int| 0 <= m < nodes@.len() implies exists|k: int|
                        0 <= k < j + 1 && #[trigger] id_of(s[k]) == id_of(#[trigger] nodes@[m]) by {
                        let k = choose|k: int| 0 <= k < j && #[trigger] id_of(s[k]) == id_of(nodes@[m]);
                        assert(0 <= k < j + 1 && id_of(s[k]) == id_of(nodes@[m]));
                    }
                }
            }
            j = j + 1;
        }
        proof {
            assert(s.take(n as int) =~= s);
        }
        let empty: Vec<String> = Vec::new();
        let duplicate_ids = sorted_union(&dups, &empty);
        TaskGraph { nodes, duplicate_ids }
    }
}


/// A graph built from parsed tasks never keeps a task whose ID is reported
/// as found in several files.
pub proof fn lemma_duplicates_left_out(parsed: Seq<TaskNode>, k: int)
    requires
        0 <= k < unique_nodes(parsed).len(),
    ensures
        !shared_id(parsed, id_of(unique_nodes(parsed)[k])),
{
    parsed.lemma_filter_pred(|n: TaskNode| !shared_id(parsed, id_of(n)), k);
}
} // verus!
