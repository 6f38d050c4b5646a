//! `list` and `search`: which tasks are shown, and in what order.
use crate::graph::{blocking_count, deref_nodes, id_of, ready, TaskGraph};
use crate::inputs::ListOptions;
use crate::models::{
    NotFoundError,
    lemma_opt_time_flip, lemma_opt_time_trans, opt_time_order, order_opt_time, rank_of_status, status_rank, Priority,
    TaskNode, TaskStatus, Timestamp, lemma_time_order_total, LiveStatus, ClosedStatus,
};
use crate::ordering::{cycle_less, cycle_order, in_default_order, lemma_cycle_flip, lemma_cycle_trans};
use crate::sorting::{positions, same_elements, sort_by_less, sorted_by, strict_total_on};
use crate::text::{
    chars_of, contains_str, contains_substr, flip, has_substr, lowercase_of, to_lowercase, lemma_seq_order_equal, lemma_seq_order_flip, lemma_seq_order_trans,
    order_strs, rest_equals, seq_order, Order,
};
use vstd::prelude::*;
use vstd::string::StringExecFns;

verus! {

/// The fields `list --sort` accepts.
#[derive(PartialEq, Eq, Structural, Clone, Copy, Debug)]
pub enum ListSortField {
    Priority,
    Blocking,
    CreatedAt,
    ModifiedAt,
    Status,
    Title,
}

/// A parsed `--sort` value: the field, and whether the order is reversed.
#[derive(PartialEq, Eq, Structural, Clone, Copy, Debug)]
pub struct SortSpec {
    pub field: ListSortField,
    pub descending: bool,
}

/// The name of a sort field.
pub open spec fn sort_field_name(f: ListSortField) -> Seq<char> {
    match f {
        ListSortField::Priority => "priority"@,
        ListSortField::Blocking => "blocking"@,
        ListSortField::CreatedAt => "created_at"@,
        ListSortField::ModifiedAt => "modified_at"@,
        ListSortField::Status => "status"@,
        ListSortField::Title => "title"@,
    }
}

/// The message for an unknown sort field.
pub open spec fn invalid_sort_message(raw: Seq<char>) -> Seq<char> {
    "Invalid sort field '"@ + raw
        + "'. Valid fields: priority, blocking, created_at, modified_at, status, title"@
}

/// The value starts with `-` (descending order).
pub open spec fn sort_is_descending(raw: Seq<char>) -> bool {
    raw.len() > 0 && raw[0] == '-'
}

/// The field part of a sort value (after one leading `-`, if any).
pub open spec fn sort_field_part(raw: Seq<char>) -> Seq<char> {
    if sort_is_descending(raw) {
        raw.drop_first()
    } else {
        raw
    }
}

impl SortSpec {
    /// Parses a `--sort` value: an optional leading `-` for descending
    /// order, then one of the field names.
    pub fn parse(raw: &str) -> (r: Result<SortSpec, String>)
        ensures
            match r {
                Ok(spec) => spec.descending == sort_is_descending(raw@) && sort_field_name(spec.field)
                    == sort_field_part(raw@),
                Err(m) => (forall|f: ListSortField| sort_field_name(f) != sort_field_part(raw@)) && m@
                    == invalid_sort_message(raw@),
            },
    {
        let v = chars_of(raw);
        let descending = v.len() > 0 && v[0] == '-';
        let from: usize = if descending {
            1
        } else {
            0
        };
        proof {
            if descending {
                assert(v@.skip(1) =~= raw@.drop_first());
            } else {
                assert(v@.skip(0) =~= raw@);
            }
        }
        let field = if rest_equals(&v, from, "priority") {
            ListSortField::Priority
        } else if rest_equals(&v, from, "blocking") {
            ListSortField::Blocking
        } else if rest_equals(&v, from, "created_at") {
            ListSortField::CreatedAt
        } else if rest_equals(&v, from, "modified_at") {
            ListSortField::ModifiedAt
        } else if rest_equals(&v, from, "status") {
            ListSortField::Status
        } else if rest_equals(&v, from, "title") {
            ListSortField::Title
        } else {
            let mut m = String::from_str("Invalid sort field '");
            m.append(raw);
            m.append("'. Valid fields: priority, blocking, created_at, modified_at, status, title");
            proof {
                assert forall|f: ListSortField| sort_field_name(f) != sort_field_part(raw@) by {
                    match f {
                        ListSortField::Priority => {},
                        ListSortField::Blocking => {},
                        ListSortField::CreatedAt => {},
                        ListSortField::ModifiedAt => {},
                        ListSortField::Status => {},
                        ListSortField::Title => {},
                    }
                }
            }
            return Err(m);
        };
        Ok(SortSpec { field, descending })
    }
}

/// Priority key for `--sort priority`: set priorities first, by value; unset last.
pub open spec fn priority_key_order(a: Option<Priority>, b: Option<Priority>) -> Order {
    match (a, b) {
        (None, None) => Order::Equal,
        (None, Some(_)) => Order::Greater,
        (Some(_), None) => Order::Less,
        (Some(x), Some(y)) => if x.val() < y.val() {
            Order::Less
        } else if x.val() > y.val() {
            Order::Greater
        } else {
            Order::Equal
        },
    }
}

/// Three-way comparison of two integers.
pub open spec fn int_order(a: int, b: int) -> Order {
    if a < b {
        Order::Less
    } else if a > b {
        Order::Greater
    } else {
        Order::Equal
    }
}

/// Comparison of two tasks by one sort field (blocking counts from `g`).
pub open spec fn field_order(g: Seq<TaskNode>, f: ListSortField, a: TaskNode, b: TaskNode) -> Order {
    match f {
        ListSortField::Priority => priority_key_order(a.frontmatter.priority, b.frontmatter.priority),
        ListSortField::Blocking => int_order(blocking_count(g, id_of(a)) as int, blocking_count(g, id_of(b)) as int),
        ListSortField::CreatedAt => opt_time_order(a.frontmatter.created_at, b.frontmatter.created_at),
        ListSortField::ModifiedAt => opt_time_order(a.frontmatter.modified_at, b.frontmatter.modified_at),
        ListSortField::Status => int_order(
            status_rank(a.frontmatter.status) as int,
            status_rank(b.frontmatter.status) as int,
        ),
        ListSortField::Title => seq_order(a.frontmatter.title@, b.frontmatter.title@),
    }
}

/// The `--sort` order: the field (reversed when descending), then creation
/// time, then ID.
pub open spec fn list_order(g: Seq<TaskNode>, spec: SortSpec, a: TaskNode, b: TaskNode) -> Order {
    let k = field_order(g, spec.field, a, b);
    let k2 = if spec.descending {
        flip(k)
    } else {
        k
    };
    if k2 != Order::Equal {
        k2
    } else {
        cycle_order(a, b)
    }
}

/// Comparing by a field the other way round gives the opposite outcome.
pub proof fn lemma_field_flip(g: Seq<TaskNode>, f: ListSortField, a: TaskNode, b: TaskNode)
    ensures
        field_order(g, f, b, a) == flip(field_order(g, f, a, b)),
{
    lemma_opt_time_flip(a.frontmatter.created_at, b.frontmatter.created_at);
    lemma_opt_time_flip(a.frontmatter.modified_at, b.frontmatter.modified_at);
    lemma_seq_order_flip(a.frontmatter.title@, b.frontmatter.title@);
}

/// Comparing by a field is transitive, as a preorder.
pub proof fn lemma_field_trans(g: Seq<TaskNode>, f: ListSortField, a: TaskNode, b: TaskNode, c: TaskNode)
    requires
        field_order(g, f, a, b) != Order::Greater,
        field_order(g, f, b, c) != Order::Greater,
    ensures
        field_order(g, f, a, c) != Order::Greater,
        (field_order(g, f, a, b) == Order::Less || field_order(g, f, b, c) == Order::Less) ==> field_order(g, f, a, c)
            == Order::Less,
{
    match f {
        ListSortField::CreatedAt => lemma_opt_time_trans(
            a.frontmatter.created_at,
            b.frontmatter.created_at,
            c.frontmatter.created_at,
        ),
        ListSortField::ModifiedAt => lemma_opt_time_trans(
            a.frontmatter.modified_at,
            b.frontmatter.modified_at,
            c.frontmatter.modified_at,
        ),
        ListSortField::Title => lemma_seq_order_trans(a.frontmatter.title@, b.frontmatter.title@, c.frontmatter.title@),
        _ => {},
    }
}

/// The `--sort` order compared the other way round gives the opposite
/// outcome; only equal IDs compare equal.
pub proof fn lemma_list_flip(g: Seq<TaskNode>, spec: SortSpec, a: TaskNode, b: TaskNode)
    ensures
        list_order(g, spec, b, a) == flip(list_order(g, spec, a, b)),
        list_order(g, spec, a, b) == Order::Equal ==> id_of(a) == id_of(b),
{
    lemma_field_flip(g, spec.field, a, b);
    lemma_cycle_flip(a, b);
}

/// The `--sort` order is transitive.
pub proof fn lemma_list_trans(g: Seq<TaskNode>, spec: SortSpec, a: TaskNode, b: TaskNode, c: TaskNode)
    requires
        list_order(g, spec, a, b) != Order::Greater,
        list_order(g, spec, b, c) != Order::Greater,
    ensures
        list_order(g, spec, a, c) != Order::Greater,
        (list_order(g, spec, a, b) == Order::Less || list_order(g, spec, b, c) == Order::Less) ==> list_order(
            g,
            spec,
            a,
            c,
        ) == Order::Less,
{
    let f = spec.field;
    lemma_field_flip(g, f, a, b);
    lemma_field_flip(g, f, b, c);
    lemma_field_flip(g, f, a, c);
    lemma_list_flip(g, spec, a, b);
    lemma_list_flip(g, spec, b, c);
    lemma_list_flip(g, spec, a, c);
    if spec.descending {
        if field_order(g, f, c, b) != Order::Greater && field_order(g, f, b, a) != Order::Greater {
            lemma_field_trans(g, f, c, b, a);
        }
    } else {
        if field_order(g, f, a, b) != Order::Greater && field_order(g, f, b, c) != Order::Greater {
            lemma_field_trans(g, f, a, b, c);
        }
    }
    if cycle_order(a, b) == Order::Less && cycle_order(b, c) == Order::Less {
        lemma_cycle_trans(a, b, c);
    }
    lemma_cycle_flip(a, b);
    lemma_cycle_flip(b, c);
    lemma_cycle_flip(a, c);
    if cycle_order(a, b) == Order::Equal {
        lemma_seq_order_equal(id_of(a), id_of(b));
    }
    if cycle_order(b, c) == Order::Equal {
        lemma_seq_order_equal(id_of(b), id_of(c));
    }
    lemma_opt_time_flip(a.frontmatter.created_at, b.frontmatter.created_at);
    lemma_opt_time_flip(b.frontmatter.created_at, c.frontmatter.created_at);
    lemma_seq_order_equal(id_of(a), id_of(c));
}

/// Compares two tasks by one sort field, given their blocking counts in `g`.
fn field_order_of(
    Ghost(g): Ghost<Seq<TaskNode>>,
    f: ListSortField,
    a: &TaskNode,
    ca: usize,
    b: &TaskNode,
    cb: usize,
) -> (r: Order)
    requires
        ca == blocking_count(g, id_of(*a)),
        cb == blocking_count(g, id_of(*b)),
    ensures
        r == field_order(g, f, *a, *b),
{
    let (fa, fb) = (&a.frontmatter, &b.frontmatter);
    match f {
        ListSortField::Priority => match (fa.priority, fb.priority) {
            (None, None) => Order::Equal,
            (None, Some(_)) => Order::Greater,
            (Some(_), None) => Order::Less,
            (Some(x), Some(y)) => {
                let (xv, yv) = (x.get(), y.get());
                if xv < yv {
                    Order::Less
                } else if xv > yv {
                    Order::Greater
                } else {
                    Order::Equal
                }
            },
        },
        ListSortField::Blocking => {
            if ca < cb {
                Order::Less
            } else if ca > cb {
                Order::Greater
            } else {
                Order::Equal
            }
        },
        ListSortField::CreatedAt => order_opt_time(fa.created_at, fb.created_at),
        ListSortField::ModifiedAt => order_opt_time(fa.modified_at, fb.modified_at),
        ListSortField::Status => {
            let (ra, rb) = (rank_of_status(fa.status), rank_of_status(fb.status));
            if ra < rb {
                Order::Less
            } else if ra > rb {
                Order::Greater
            } else {
                Order::Equal
            }
        },
        ListSortField::Title => order_strs(fa.title.as_str(), fb.title.as_str()),
    }
}

/// Compares two tasks in the `--sort` order.
fn list_order_of(
    Ghost(g): Ghost<Seq<TaskNode>>,
    spec: SortSpec,
    a: &TaskNode,
    ca: usize,
    b: &TaskNode,
    cb: usize,
) -> (r: Order)
    requires
        ca == blocking_count(g, id_of(*a)),
        cb == blocking_count(g, id_of(*b)),
    ensures
        r == list_order(g, spec, *a, *b),
{
    let k = field_order_of(Ghost(g), spec.field, a, ca, b, cb);
    let k2 = if spec.descending {
        match k {
            Order::Less => Order::Greater,
            Order::Equal => Order::Equal,
            Order::Greater => Order::Less,
        }
    } else {
        k
    };
    if k2 != Order::Equal {
        k2
    } else if cycle_less(a, b) {
        Order::Less
    } else {
        proof {
            lemma_cycle_flip(*a, *b);
        }
        if cycle_less(b, a) {
            Order::Greater
        } else {
            Order::Equal
        }
    }
}

/// Position `i` of `s` sorts before position `j`: by the `--sort` order,
/// and by position among tasks that compare equal (a stable sort).
pub open spec fn list_before(g: Seq<TaskNode>, spec: SortSpec, s: Seq<TaskNode>, i: usize, j: usize) -> bool {
    let o = list_order(g, spec, s[i as int], s[j as int]);
    o == Order::Less || (o == Order::Equal && i < j)
}

/// `r` lists the tasks of `tasks` sorted stably by the `--sort`
/// specification, with blocking counts from the graph `g`.
pub open spec fn sorted_by_spec(g: Seq<TaskNode>, spec: SortSpec, tasks: Seq<&TaskNode>, r: Seq<&TaskNode>) -> bool {
    exists|pos: Seq<usize>|
        {
            &&& #[trigger] same_elements(pos, positions(tasks.len()))
            &&& sorted_by(|i: usize, j: usize| list_before(g, spec, deref_nodes(tasks), i, j), pos)
            &&& r.len() == pos.len()
            &&& forall|k: int| 0 <= k < pos.len() ==> r[k] == tasks[pos[k] as int]
        }
}

/// Sorts tasks stably by a parsed `--sort` specification, with blocking
/// counts taken from `graph`.
pub fn sort_by_spec<'a>(graph: &TaskGraph, tasks: &Vec<&'a TaskNode>, spec: SortSpec) -> (r: Vec<&'a TaskNode>)
    ensures
        sorted_by_spec(graph.nodes@, spec, tasks@, r@),
{
    let ghost g = graph.nodes@;
    let ghost s = deref_nodes(tasks@);
    let n = tasks.len();
    let mut counts: Vec<usize> = Vec::new();
    let mut idx: Vec<usize> = Vec::new();
    let mut i: usize = 0;
    while i < n
        invariant
            n == tasks.len(),
            i <= n,
            counts.len() == i,
            idx@ == positions(i as nat),
            forall|k: int| 0 <= k < i ==> counts@[k] == blocking_count(g, id_of(*tasks@[k])),
            g == graph.nodes@,
        decreases n - i,
    {
        counts.push(graph.count_blocking(tasks[i].frontmatter.id.as_str()));
        idx.push(i);
        assert(idx@ =~= positions((i + 1) as nat));
        i = i + 1;
    }
    let ghost lt = |x: usize, y: usize| list_before(g, spec, s, x, y);
    proof {
        assert forall|x: usize| #[trigger] idx@.contains(x) implies x < n by {
            let w = choose|w: int| 0 <= w < idx.len() && idx@[w] == x;
        }
        assert(idx@.no_duplicates());
        assert forall|x: usize| #[trigger] idx@.contains(x) implies !lt(x, x) by {
            lemma_list_flip(g, spec, s[x as int], s[x as int]);
        }
        assert forall|x: usize, y: usize| idx@.contains(x) && idx@.contains(y) && x != y implies #[trigger] lt(x, y)
            || #[trigger] lt(y, x) by {
            lemma_list_flip(g, spec, s[x as int], s[y as int]);
        }
        assert forall|x: usize, y: usize, z: usize|
            idx@.contains(x) && idx@.contains(y) && idx@.contains(z) && #[trigger] lt(x, y) && #[trigger] lt(y, z) implies lt(
            x,
            z,
        ) by {
            lemma_list_flip(g, spec, s[x as int], s[y as int]);
            lemma_list_flip(g, spec, s[y as int], s[z as int]);
            lemma_list_trans(g, spec, s[x as int], s[y as int], s[z as int]);
        }
    }
    let cnt = &counts;
    let gr = graph;
    let less = |x: usize, y: usize| -> (o: bool)
        requires
            x < tasks.len(),
            y < tasks.len(),
            cnt.len() == tasks.len(),
            cnt@[x as int] == blocking_count(gr.nodes@, id_of(*tasks@[x as int])),
            cnt@[y as int] == blocking_count(gr.nodes@, id_of(*tasks@[y as int])),
        ensures
            o == list_before(gr.nodes@, spec, deref_nodes(tasks@), x, y),
        {
            let o = list_order_of(Ghost(gr.nodes@), spec, tasks[x], cnt[x], tasks[y], cnt[y]);
            o == Order::Less || (o == Order::Equal && x < y)
        };
    proof {
        assert forall|x: usize, y: usize| idx@.contains(x) && idx@.contains(y) implies #[trigger] less.requires((x, y)) by {}
    }
    let sorted = sort_by_less(&idx, &less, Ghost(lt));
    let mut r: Vec<&'a TaskNode> = Vec::new();
    let mut k: usize = 0;
    while k < sorted.len()
        invariant
            k <= sorted.len(),
            same_elements(sorted@, idx@),
            forall|x: usize| #[trigger] idx@.contains(x) ==> x < n,
            n == tasks.len(),
            r.len() == k,
            forall|j: int| 0 <= j < k ==> r@[j] == tasks@[#[trigger] sorted@[j] as int],
        decreases sorted.len() - k,
    {
        assert(sorted@.contains(sorted@[k as int]));
        r.push(tasks[sorted[k]]);
        k = k + 1;
    }
    proof {
        assert(same_elements(sorted@, positions(tasks.len() as nat)));
        assert(sorted_by(|i: usize, j: usize| list_before(g, spec, s, i, j), sorted@));
    }
    r
}


/// Whether task `n` passes the `list` filters: status (any listed, or not
/// closed unless `--all`), every listed tag, any listed need, any listed
/// priority, and readiness when asked.
pub open spec fn list_keep(g: Seq<TaskNode>, o: ListOptions, n: TaskNode) -> bool {
    &&& (if o.statuses@.len() > 0 {
        o.statuses@.contains(n.frontmatter.status)
    } else {
        o.all || !(n.frontmatter.status is Closed)
    })
    &&& forall|k: int| 0 <= k < o.tags@.len() ==> n.frontmatter.tags.deep_view().contains(#[trigger] o.tags@[k]@)
    &&& (o.needs@.len() > 0 ==> exists|k: int|
        0 <= k < n.frontmatter.needs@.len() && o.needs.deep_view().contains(#[trigger] n.frontmatter.needs@[k]@))
    &&& (o.priorities@.len() > 0 ==> (n.frontmatter.priority matches Some(p) && o.priorities@.contains(p)))
    &&& (o.is_ready ==> ready(g, id_of(n)))
}

/// Whether a status is among the listed ones.
fn has_status(v: &Vec<TaskStatus>, s: TaskStatus) -> (r: bool)
    ensures
        r == v@.contains(s),
{
    let mut i: usize = 0;
    while i < v.len()
        invariant
            i <= v.len(),
            forall|k: int| 0 <= k < i ==> v@[k] != s,
        decreases v.len() - i,
    {
        if v[i] == s {
            return true;
        }
        i = i + 1;
    }
    false
}

/// Whether a priority is among the listed ones.
fn has_priority(v: &Vec<Priority>, p: Priority) -> (r: bool)
    ensures
        r == v@.contains(p),
{
    let mut i: usize = 0;
    while i < v.len()
        invariant
            i <= v.len(),
            forall|k: int| 0 <= k < i ==> v@[k] != p,
        decreases v.len() - i,
    {
        if v[i] == p {
            return true;
        }
        i = i + 1;
    }
    false
}

/// Whether task `n` passes the `list` filters.
fn keep_for_list(graph: &TaskGraph, o: &ListOptions, n: &TaskNode) -> (r: bool)
    requires
        graph.wf(),
    ensures
        r == list_keep(graph.nodes@, *o, *n),
{
    let status_ok = if o.statuses.len() > 0 {
        has_status(&o.statuses, n.frontmatter.status)
    } else {
        o.all || !n.frontmatter.status.is_closed()
    };
    if !status_ok {
        return false;
    }
    let mut k: usize = 0;
    while k < o.tags.len()
        invariant
            k <= o.tags.len(),
            forall|j: int| 0 <= j < k ==> n.frontmatter.tags.deep_view().contains(#[trigger] o.tags@[j]@),
        decreases o.tags.len() - k,
    {
        if !contains_str(&n.frontmatter.tags, o.tags[k].as_str()) {
            assert(!n.frontmatter.tags.deep_view().contains(o.tags@[k as int]@));
            return false;
        }
        k = k + 1;
    }
    if o.needs.len() > 0 {
        let mut found = false;
        let mut j: usize = 0;
        while j < n.frontmatter.needs.len()
            invariant
                j <= n.frontmatter.needs.len(),
                found == exists|x: int| 0 <= x < j && o.needs.deep_view().contains(#[trigger] n.frontmatter.needs@[x]@),
            decreases n.frontmatter.needs.len() - j,
        {
            if contains_str(&o.needs, n.frontmatter.needs[j].as_str()) {
                found = true;
            }
            j = j + 1;
        }
        if !found {
            return false;
        }
    }
    if o.priorities.len() > 0 {
        match n.frontmatter.priority {
            Some(p) => {
                if !has_priority(&o.priorities, p) {
                    return false;
                }
            },
            None => {
                return false;
            },
        }
    }
    if o.is_ready {
        return graph.is_ready(n.frontmatter.id.as_str());
    }
    true
}

/// The graph's tasks that pass the `list` filters, in graph order.
pub fn filter_list_tasks<'a>(graph: &'a TaskGraph, options: &ListOptions) -> (r: Vec<&'a TaskNode>)
    requires
        graph.wf(),
    ensures
        deref_nodes(r@) == graph.nodes@.filter(|n: TaskNode| list_keep(graph.nodes@, *options, n)),
        forall|k: int| 0 <= k < r.len() ==> graph.nodes@.contains(*r@[k]),
{
    let ghost g = graph.nodes@;
    let ghost pred = |n: TaskNode| list_keep(g, *options, n);
    let mut r: Vec<&'a TaskNode> = Vec::new();
    let mut i: usize = 0;
    while i < graph.nodes.len()
        invariant
            graph.wf(),
            g == graph.nodes@,
            pred == (|n: TaskNode| list_keep(g, *options, n)),
            i <= g.len(),
            deref_nodes(r@) == g.take(i as int).filter(pred),
            forall|k: int| 0 <= k < r.len() ==> g.contains(*r@[k]),
        decreases g.len() - i,
    {
        let node = &graph.nodes[i];
        let keep = keep_for_list(graph, options, node);
        proof {
            let t = g.take(i + 1);
            assert(t.drop_last() =~= g.take(i as int));
            assert(t.last() == g[i as int]);
            reveal(Seq::filter);
        }
        if keep {
            let ghost before = r@;
            r.push(node);
            assert(deref_nodes(r@) =~= deref_nodes(before).push(g[i as int]));
        }
        i = i + 1;
    }
    assert(g.take(g.len() as int) =~= g);
    r
}

/// The characters of an optional text.
pub open spec fn opt_str_view(o: Option<&str>) -> Option<Seq<char>> {
    match o {
        Some(x) => Some(x@),
        None => None,
    }
}

/// The characters of an optional string.
pub open spec fn opt_string_view(o: Option<String>) -> Option<Seq<char>> {
    match o {
        Some(x) => Some(x@),
        None => None,
    }
}

/// `r` lists `tasks` in the order the `--sort` value asks for: the default
/// order when there is none, else the parsed specification's order.
pub open spec fn list_sorted(
    g: Seq<TaskNode>,
    sort: Option<Seq<char>>,
    tasks: Seq<&TaskNode>,
    r: Seq<&TaskNode>,
) -> bool {
    match sort {
        None => in_default_order(g, tasks, r),
        Some(raw) => exists|spec: SortSpec|
            spec.descending == sort_is_descending(raw) && #[trigger] sort_field_name(spec.field) == sort_field_part(raw)
                && sorted_by_spec(g, spec, tasks, r),
    }
}

/// Orders tasks for `list`: the default order without `--sort`, else the
/// stable order of the parsed `--sort` value (an unknown field is an error).
pub fn sort_list_tasks<'a>(graph: &'a TaskGraph, tasks: Vec<&'a TaskNode>, sort: Option<&str>) -> (r: Result<
    Vec<&'a TaskNode>,
    String,
>)
    ensures
        match sort {
            None => r is Ok,
            Some(raw) => (r is Err <==> forall|f: ListSortField| sort_field_name(f) != sort_field_part(raw@)) && (
            r matches Err(m) ==> m@ == invalid_sort_message(raw@)),
        },
        r matches Ok(v) ==> list_sorted(graph.nodes@, opt_str_view(sort), tasks@, v@),
{
    match sort {
        None => graph.default_order(tasks),
        Some(raw) => match SortSpec::parse(raw) {
            Err(m) => Err(m),
            Ok(spec) => {
                let v = sort_by_spec(graph, &tasks, spec);
                assert(sort_field_name(spec.field) == sort_field_part(raw@));
                Ok(v)
            },
        },
    }
}

/// The first `limit` entries, or all of them without a limit.
pub open spec fn limited<T>(s: Seq<T>, limit: Option<usize>) -> Seq<T> {
    match limit {
        Some(l) => if l < s.len() {
            s.take(l as int)
        } else {
            s
        },
        None => s,
    }
}

/// `pebble list`: the tasks that pass the filters, ordered as asked, cut to
/// the limit.
pub fn list_tasks<'a>(graph: &'a TaskGraph, options: &ListOptions) -> (r: Result<Vec<&'a TaskNode>, String>)
    requires
        graph.wf(),
    ensures
        match options.sort {
            None => r is Ok,
            Some(raw) => (r is Err <==> forall|f: ListSortField| sort_field_name(f) != sort_field_part(raw@)) && (
            r matches Err(m) ==> m@ == invalid_sort_message(raw@)),
        },
        r matches Ok(v) ==> exists|filtered: Seq<&TaskNode>, sorted: Seq<&TaskNode>|
            {
                &&& deref_nodes(filtered) == graph.nodes@.filter(|n: TaskNode| list_keep(graph.nodes@, *options, n))
                &&& #[trigger] list_sorted(
                    graph.nodes@,
                    opt_string_view(options.sort),
                    filtered,
                    sorted,
                )
                &&& v@ == limited(sorted, options.limit)
            },
{
    let tasks = filter_list_tasks(graph, options);
    let ghost filtered = tasks@;
    let sort: Option<&str> = match &options.sort {
        Some(s) => Some(s.as_str()),
        None => None,
    };
    assert(opt_str_view(sort) == opt_string_view(options.sort));
    let mut v = sort_list_tasks(graph, tasks, sort)?;
    let ghost sorted = v@;
    if let Some(limit) = options.limit {
        if limit < v.len() {
            v.truncate(limit);
        }
    }
    assert(v@ =~= limited(sorted, options.limit));
    Ok(v)
}

/// Task `n` is open and its lowercased title or body contains the lowercased query.
pub open spec fn search_match(query: Seq<char>, n: TaskNode) -> bool {
    !(n.frontmatter.status is Closed) && (has_substr(lowercase_of(n.frontmatter.title@), lowercase_of(query))
        || has_substr(lowercase_of(n.body@), lowercase_of(query)))
}

/// The search condition as a predicate on tasks.
pub open spec fn search_pred(query: Seq<char>) -> spec_fn(TaskNode) -> bool {
    |n: TaskNode| search_match(query, n)
}

/// `r` lists the tasks of `g` that match the query, in the default order.
pub open spec fn search_result(g: Seq<TaskNode>, query: Seq<char>, r: Seq<&TaskNode>) -> bool {
    exists|found: Seq<&TaskNode>|
        deref_nodes(found) == g.filter(search_pred(query)) && #[trigger] in_default_order(g, found, r)
}

/// The message when nothing matches a search.
pub open spec fn no_match_message(query: Seq<char>) -> Seq<char> {
    "No tasks found matching query '"@ + query + "'"@
}

/// `pebble search`: the open tasks whose title or body contains the query,
/// ignoring case, in the default order; not finding any is an error.
pub fn search_tasks<'a>(graph: &'a TaskGraph, query: &str) -> (r: Result<Vec<&'a TaskNode>, NotFoundError>)
    ensures
        r is Err <==> graph.nodes@.filter(search_pred(query@)).len() == 0,
        r matches Err(e) ==> e.0@ == no_match_message(query@),
        r matches Ok(v) ==> search_result(graph.nodes@, query@, v@),
{
    let ghost g = graph.nodes@;
    let ghost pred = search_pred(query@);
    let needle = to_lowercase(query);
    let mut found: Vec<&'a TaskNode> = Vec::new();
    let mut i: usize = 0;
    while i < graph.nodes.len()
        invariant
            g == graph.nodes@,
            pred == (search_pred(query@)),
            needle@ == lowercase_of(query@),
            i <= g.len(),
            deref_nodes(found@) == g.take(i as int).filter(pred),
        decreases g.len() - i,
    {
        let node = &graph.nodes[i];
        let keep = !node.frontmatter.status.is_closed() && (contains_substr(
            to_lowercase(node.frontmatter.title.as_str()).as_str(),
            needle.as_str(),
        ) || contains_substr(to_lowercase(node.body.as_str()).as_str(), needle.as_str()));
        proof {
            let t = g.take(i + 1);
            assert(t.drop_last() =~= g.take(i as int));
            assert(t.last() == g[i as int]);
            reveal(Seq::filter);
        }
        if keep {
            let ghost before = found@;
            found.push(node);
            assert(deref_nodes(found@) =~= deref_nodes(before).push(g[i as int]));
        }
        i = i + 1;
    }
    assert(g.take(g.len() as int) =~= g);
    assert(g.filter(pred) == graph.nodes@.filter(search_pred(query@)));
    if found.len() == 0 {
        assert(deref_nodes(found@).len() == 0);
        let mut m = String::from_str("No tasks found matching query '");
        m.append(query);
        m.append("'");
        return Err(NotFoundError(m));
    }
    let ghost fv = found@;
    assert(deref_nodes(fv).len() == fv.len());
    let v = graph.default_order(found);
    let out = v.unwrap();
    assert(in_default_order(graph.nodes@, fv, out@));
    assert(deref_nodes(fv) == graph.nodes@.filter(search_pred(query@)));
    assert(search_result(graph.nodes@, query@, out@));
    Ok(out)
}

/// The line `list` and `search` print for a task: `<id> <title> (<status>)`.
pub fn task_list_line(node: &TaskNode) -> (r: String)
    ensures
        r@ == node.frontmatter.id@ + " "@ + node.frontmatter.title@ + " ("@ + crate::models::status_label(
            node.frontmatter.status,
        ) + ")"@,
{
    let mut s = node.frontmatter.id.clone();
    s.append(" ");
    s.append(node.frontmatter.title.as_str());
    s.append(" (");
    s.append(node.frontmatter.status.label());
    s.append(")");
    s
}

/// The line `next` prints for a task: `<id> <title>`.
pub fn next_task_line(node: &TaskNode) -> (r: String)
    ensures
        r@ == node.frontmatter.id@ + " "@ + node.frontmatter.title@,
{
    let mut s = node.frontmatter.id.clone();
    s.append(" ");
    s.append(node.frontmatter.title.as_str());
    s
}

/// `list --sort created_at` puts earlier-created tasks first, and
/// `--sort -created_at` later-created ones: in a sorted list, of two tasks
/// with creation times, the one listed first was created no later (no
/// earlier when descending), by the total nanoseconds since the epoch.
pub proof fn lemma_sort_created_at_chronological(
    g: Seq<TaskNode>,
    spec: SortSpec,
    tasks: Seq<&TaskNode>,
    r: Seq<&TaskNode>,
    k1: int,
    k2: int,
    x: Timestamp,
    y: Timestamp,
)
    requires
        sorted_by_spec(g, spec, tasks, r),
        spec.field == ListSortField::CreatedAt,
        0 <= k1 < k2 < r.len(),
        r[k1].frontmatter.created_at == Some(x),
        r[k2].frontmatter.created_at == Some(y),
        x.nanos < 1_000_000_000,
        y.nanos < 1_000_000_000,
    ensures
        !spec.descending ==> x.secs * 1_000_000_000 + x.nanos <= y.secs * 1_000_000_000 + y.nanos,
        spec.descending ==> x.secs * 1_000_000_000 + x.nanos >= y.secs * 1_000_000_000 + y.nanos,
{
    let pos = choose|pos: Seq<usize>|
        {
            &&& #[trigger] same_elements(pos, positions(tasks.len()))
            &&& sorted_by(|i: usize, j: usize| list_before(g, spec, deref_nodes(tasks), i, j), pos)
            &&& r.len() == pos.len()
            &&& forall|k: int| 0 <= k < pos.len() ==> r[k] == tasks[pos[k] as int]
        };
    let s = deref_nodes(tasks);
    assert(list_before(g, spec, s, pos[k1], pos[k2]));
    assert(pos.contains(pos[k1]) && pos.contains(pos[k2]));
    assert(positions(tasks.len()).contains(pos[k1]));
    assert(positions(tasks.len()).contains(pos[k2]));
    let a = s[pos[k1] as int];
    let b = s[pos[k2] as int];
    assert(a == *r[k1] && b == *r[k2]);
    lemma_time_order_total(x, y);
    lemma_time_order_total(y, x);
    lemma_opt_time_flip(Some(x), Some(y));
}

/// `list --status ...` shows exactly the tasks with a listed status, closed
/// ones included and whether or not `--all` is given; without a status
/// filter, closed tasks are shown only with `--all`. (The other filters are
/// left out here by giving none.)
pub proof fn lemma_status_filter(g: Seq<TaskNode>, o: ListOptions, n: TaskNode)
    ensures
        o.statuses@.len() > 0 && list_keep(g, o, n) ==> o.statuses@.contains(n.frontmatter.status),
        o.statuses@.len() == 0 && !o.all && n.frontmatter.status is Closed ==> !list_keep(g, o, n),
        ({
            let no_other = o.tags@.len() == 0 && o.needs@.len() == 0 && o.priorities@.len() == 0 && !o.is_ready;
            &&& no_other && o.statuses@.len() > 0 && o.statuses@.contains(n.frontmatter.status) ==> list_keep(g, o, n)
            &&& no_other && o.statuses@.len() == 0 && (o.all || n.frontmatter.status is Live) ==> list_keep(g, o, n)
        }),
{
}

/// A task that passes the `list` filters is listed: it stands in the
/// result of [`filter_list_tasks`], whose order is the graph's.
pub proof fn lemma_kept_task_listed(g: Seq<TaskNode>, o: ListOptions, r: Seq<TaskNode>, i: int)
    requires
        r == g.filter(|n: TaskNode| list_keep(g, o, n)),
        0 <= i < g.len(),
        list_keep(g, o, g[i]),
    ensures
        r.contains(g[i]),
{
    g.lemma_filter_contains(|n: TaskNode| list_keep(g, o, n), i);
}

/// How `list --sort` compares two tasks, field by field, in ascending order:
/// set priorities before unset ones and the lower value first; less
/// transitively blocked work first; todo, then in progress, then done, then
/// canceled; the earlier creation or modification time first (unset
/// first). A descending sort (`-field`) puts the other task first when the
/// field tells them apart.
pub proof fn lemma_sort_field_rules(g: Seq<TaskNode>, a: TaskNode, b: TaskNode)
    ensures
        ({
            let asc = |f: ListSortField| SortSpec { field: f, descending: false };
            let desc = |f: ListSortField| SortSpec { field: f, descending: true };
            let pa = a.frontmatter.priority;
            let pb = b.frontmatter.priority;
            let sa = a.frontmatter.status;
            let sb = b.frontmatter.status;
            &&& (pa is Some && pb is None) ==> list_order(g, asc(ListSortField::Priority), a, b) == Order::Less
            &&& (pa matches Some(p) && pb matches Some(q) && p.val() < q.val()) ==> list_order(
                g,
                asc(ListSortField::Priority),
                a,
                b,
            ) == Order::Less
            &&& (pa matches Some(p) && pb matches Some(q) && p.val() < q.val()) ==> list_order(
                g,
                desc(ListSortField::Priority),
                b,
                a,
            ) == Order::Less
            &&& blocking_count(g, id_of(a)) < blocking_count(g, id_of(b)) ==> list_order(
                g,
                asc(ListSortField::Blocking),
                a,
                b,
            ) == Order::Less
            &&& blocking_count(g, id_of(a)) < blocking_count(g, id_of(b)) ==> list_order(
                g,
                desc(ListSortField::Blocking),
                b,
                a,
            ) == Order::Less
            &&& (sa is Live && sb is Closed) ==> list_order(g, asc(ListSortField::Status), a, b) == Order::Less
            &&& (sa == TaskStatus::Live(LiveStatus::Todo) && sb == TaskStatus::Live(LiveStatus::InProgress)) ==> list_order(
                g,
                asc(ListSortField::Status),
                a,
                b,
            ) == Order::Less
            &&& (sa == TaskStatus::Closed(ClosedStatus::Done) && sb == TaskStatus::Closed(ClosedStatus::Canceled)) ==> list_order(
                g,
                asc(ListSortField::Status),
                a,
                b,
            ) == Order::Less
            &&& (a.frontmatter.created_at is None && b.frontmatter.created_at is Some) ==> list_order(
                g,
                asc(ListSortField::CreatedAt),
                a,
                b,
            ) == Order::Less
            &&& (a.frontmatter.modified_at matches Some(x) && b.frontmatter.modified_at matches Some(y) && x.secs
                < y.secs) ==> list_order(g, asc(ListSortField::ModifiedAt), a, b) == Order::Less
            &&& (a.frontmatter.created_at matches Some(x) && b.frontmatter.created_at matches Some(y) && x.secs
                < y.secs) ==> list_order(g, asc(ListSortField::CreatedAt), a, b) == Order::Less
        }),
{
    crate::models::lemma_time_order_by_seconds(a.frontmatter.created_at.unwrap(), b.frontmatter.created_at.unwrap());
    crate::models::lemma_time_order_by_seconds(a.frontmatter.modified_at.unwrap(), b.frontmatter.modified_at.unwrap());
}
} // verus!
