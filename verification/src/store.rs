//! Issue records of the JSON Lines store and the rule that merges two
//! versions of one issue.
use crate::inputs::AddOptions;
use crate::sorting::{positions, same_elements, sort_by_less, sorted_by};
use crate::text::{same_str, lemma_seq_order_equal, lemma_seq_order_flip, lemma_seq_order_trans, order_strs, seq_lt, seq_order, Order};
use vstd::prelude::*;

verus! {

/// A dependency edge between two issues.
#[derive(Debug, PartialEq, Default)]
pub struct IssueDependency {
    pub issue_id: String,
    pub depends_on_id: String,
    pub dependency_type: String,
    pub created_at: String,
    pub created_by: String,
}

/// A single issue, as stored in one line of `issues.jsonl`.
#[derive(Debug, PartialEq, Default)]
pub struct Issue {
    pub id: String,
    pub title: String,
    pub description: Option<String>,
    pub status: String,
    pub priority: i32,
    pub issue_type: String,
    pub owner: Option<String>,
    pub created_at: String,
    pub created_by: Option<String>,
    pub updated_at: String,
    pub closed_at: Option<String>,
    pub close_reason: Option<String>,
    pub acceptance_criteria: Option<String>,
    pub defer_until: Option<String>,
    pub delete_reason: Option<String>,
    pub deleted_at: Option<String>,
    pub deleted_by: Option<String>,
    pub dependencies: Vec<IssueDependency>,
    pub labels: Vec<String>,
    pub notes: Vec<String>,
    pub original_type: Option<String>,
}

/// The issue that results from taking every mutable field of `other` into
/// `base`: all but `id`, `created_at` and `created_by`.
pub open spec fn merged(base: Issue, other: Issue) -> Issue {
    Issue { id: base.id, created_at: base.created_at, created_by: base.created_by, ..other }
}

/// `a` was updated strictly later than `b` (timestamps compare as text).
pub open spec fn updated_later(a: Issue, b: Issue) -> bool {
    seq_lt(b.updated_at@, a.updated_at@)
}

impl Issue {
    /// Merges another version of this issue: when `other` was updated later
    /// (its `updated_at` is greater as text), every mutable field is taken
    /// from it; otherwise nothing changes.
    pub fn merge(&mut self, other: Issue)
        ensures
            updated_later(other, *old(self)) ==> *final(self) == merged(*old(self), other),
            !updated_later(other, *old(self)) ==> *final(self) == *old(self),
    {
        if order_strs(other.updated_at.as_str(), self.updated_at.as_str()) == Order::Greater {
            proof {
                lemma_seq_order_flip(other.updated_at@, self.updated_at@);
            }
            self.title = other.title;
            self.description = other.description;
            self.status = other.status;
            self.priority = other.priority;
            self.issue_type = other.issue_type;
            self.owner = other.owner;
            self.updated_at = other.updated_at;
            self.closed_at = other.closed_at;
            self.close_reason = other.close_reason;
            self.acceptance_criteria = other.acceptance_criteria;
            self.defer_until = other.defer_until;
            self.delete_reason = other.delete_reason;
            self.deleted_at = other.deleted_at;
            self.deleted_by = other.deleted_by;
            self.dependencies = other.dependencies;
            self.labels = other.labels;
            self.notes = other.notes;
            self.original_type = other.original_type;
        } else {
            proof {
                lemma_seq_order_flip(other.updated_at@, self.updated_at@);
            }
        }
    }
}

/// A store of issues in a JSON Lines file; it records the file's path.
pub struct JsonlStore {
    path: String,
}

impl JsonlStore {
    /// The path of the store's file.
    pub closed spec fn path_spec(&self) -> Seq<char> {
        self.path@
    }

    /// Creates a store for the file at `path`; the file need not exist yet.
    pub fn new(path: &str) -> (s: Self)
        ensures
            s.path_spec() == path@,
    {
        JsonlStore { path: path.to_string() }
    }

    /// The path of the store's file.
    pub fn path(&self) -> (p: &str)
        ensures
            p@ == self.path_spec(),
    {
        self.path.as_str()
    }
}


/// A new issue of the store from the `add` options, with ID `id`, created
/// and updated at `now` (RFC 3339 text) by the user named `user_name`. Its
/// owner is the one given, else `user_email`; it is not closed or deleted and
/// has no dependencies.
pub fn new_issue(options: AddOptions, id: String, now: String, user_name: String, user_email: String) -> (r: Issue)
    ensures
        r.id == id,
        r.title == options.title,
        r.description == options.description,
        r.status == options.status,
        r.priority == options.priority,
        r.issue_type == options.issue_type,
        r.owner == (match options.owner {
            Some(o) => Some(o),
            None => Some(user_email),
        }),
        r.created_at == now,
        r.created_by == Some(user_name),
        r.updated_at@ == now@,
        r.closed_at is None,
        r.close_reason is None,
        r.acceptance_criteria == options.acceptance_criteria,
        r.defer_until == options.defer_until,
        r.delete_reason is None,
        r.deleted_at is None,
        r.deleted_by is None,
        r.dependencies@.len() == 0,
        r.labels == options.labels,
        r.notes == options.notes,
        r.original_type is None,
{
    let AddOptions {
        title,
        description,
        status,
        priority,
        issue_type,
        owner,
        acceptance_criteria,
        defer_until,
        labels,
        notes,
    } = options;
    let owner = match owner {
        Some(o) => Some(o),
        None => Some(user_email),
    };
    let updated_at = now.clone();
    Issue {
        id,
        title,
        description,
        status,
        priority,
        issue_type,
        owner,
        created_at: now,
        created_by: Some(user_name),
        updated_at,
        closed_at: None,
        close_reason: None,
        acceptance_criteria,
        defer_until,
        delete_reason: None,
        deleted_at: None,
        deleted_by: None,
        dependencies: Vec::new(),
        labels,
        notes,
        original_type: None,
    }
}

/// Whether a line break must be written before appending a record to a file
/// whose last byte is `last_byte` (none for an empty file): exactly when the
/// file does not already end with one.
pub fn needs_newline_before_append(last_byte: Option<u8>) -> (r: bool)
    ensures
        r == (last_byte matches Some(b) && b != 10u8),
{
    match last_byte {
        Some(b) => b != 10u8,
        None => false,
    }
}

/// The issue that merging `other` into `base` leaves.
pub open spec fn merge_result(base: Issue, other: Issue) -> Issue {
    if updated_later(other, base) {
        merged(base, other)
    } else {
        base
    }
}

/// Merging the same version twice changes nothing more than merging it
/// once, and a merge keeps the issue's identity and creation.
pub proof fn lemma_merge_idempotent(base: Issue, other: Issue)
    ensures
        merge_result(merge_result(base, other), other) == merge_result(base, other),
        merge_result(base, other).id == base.id,
        merge_result(base, other).created_at == base.created_at,
        merge_result(base, other).created_by == base.created_by,
{
    crate::text::lemma_seq_order_equal(other.updated_at@, other.updated_at@);
}

/// Position `i` of the issues is written before position `j`: by ID, and by
/// position among equal IDs (a stable sort).
pub open spec fn written_before(issues: Seq<Issue>, i: usize, j: usize) -> bool {
    let o = seq_order(issues[i as int].id@, issues[j as int].id@);
    o == Order::Less || (o == Order::Equal && i < j)
}

/// The order in which the store writes issues: their positions sorted by
/// ID, stably.
pub fn issue_write_order(issues: &Vec<Issue>) -> (r: Vec<usize>)
    ensures
        same_elements(r@, positions(issues@.len())),
        sorted_by(|i: usize, j: usize| written_before(issues@, i, j), r@),
{
    let n = issues.len();
    let mut idx: Vec<usize> = Vec::new();
    let mut i: usize = 0;
    while i < n
        invariant
            n == issues.len(),
            i <= n,
            idx@ == positions(i as nat),
        decreases n - i,
    {
        idx.push(i);
        assert(idx@ =~= positions((i + 1) as nat));
        i = i + 1;
    }
    let ghost s = issues@;
    let ghost lt = |x: usize, y: usize| written_before(s, x, y);
    proof {
        assert forall|x: usize| #[trigger] idx@.contains(x) implies x < n by {
            let w = choose|w: int| 0 <= w < idx.len() && idx@[w] == x;
        }
        assert(idx@.no_duplicates());
        assert forall|x: usize| #[trigger] idx@.contains(x) implies !lt(x, x) by {
            lemma_seq_order_flip(s[x as int].id@, s[x as int].id@);
        }
        assert forall|x: usize, y: usize| idx@.contains(x) && idx@.contains(y) && x != y implies #[trigger] lt(x, y)
            || #[trigger] lt(y, x) by {
            lemma_seq_order_flip(s[x as int].id@, s[y as int].id@);
        }
        assert forall|x: usize, y: usize, z: usize|
            idx@.contains(x) && idx@.contains(y) && idx@.contains(z) && #[trigger] lt(x, y) && #[trigger] lt(y, z) implies lt(
            x,
            z,
        ) by {
            let a = s[x as int].id@;
            let b = s[y as int].id@;
            let c = s[z as int].id@;
            lemma_seq_order_equal(a, b);
            lemma_seq_order_equal(b, c);
            lemma_seq_order_equal(a, c);
            lemma_seq_order_trans(a, b, c);
        }
    }
    let less = |x: usize, y: usize| -> (o: bool)
        requires
            x < issues.len(),
            y < issues.len(),
        ensures
            o == written_before(issues@, x, y),
        {
            let o = order_strs(issues[x].id.as_str(), issues[y].id.as_str());
            o == Order::Less || (o == Order::Equal && x < y)
        };
    proof {
        assert forall|x: usize, y: usize| idx@.contains(x) && idx@.contains(y) implies #[trigger] less.requires((x, y)) by {}
    }
    sort_by_less(&idx, &less, Ghost(lt))
}
/// The line of the store that holds issue `id`: the first line whose record
/// names that ID. `line_ids` gives each line's ID, `None` for a blank line
/// or a line without a readable ID.
pub fn first_line_with_id(line_ids: &Vec<Option<String>>, id: &str) -> (r: Option<usize>)
    ensures
        match r {
            Some(k) => k < line_ids.len() && (line_ids@[k as int] matches Some(x) && x@ == id@) && forall|j: int|
                0 <= j < k ==> !(#[trigger] line_ids@[j] matches Some(x) && x@ == id@),
            None => forall|j: int| 0 <= j < line_ids.len() ==> !(#[trigger] line_ids@[j] matches Some(x) && x@ == id@),
        },
{
    let mut k: usize = 0;
    while k < line_ids.len()
        invariant
            k <= line_ids.len(),
            forall|j: int| 0 <= j < k ==> !(#[trigger] line_ids@[j] matches Some(x) && x@ == id@),
        decreases line_ids.len() - k,
    {
        match &line_ids[k] {
            Some(x) => {
                if same_str(x.as_str(), id) {
                    return Some(k);
                }
            },
            None => {},
        }
        k = k + 1;
    }
    None
}

} // verus!
