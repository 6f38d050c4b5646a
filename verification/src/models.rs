//! The task data model: lifecycle statuses, priorities, timestamps, task
//! frontmatter and task nodes.
use crate::text::{flip, same_str, Order};
use vstd::prelude::*;
use vstd::string::StringExecFns;

verus! {

/// The YAML frontmatter delimiter used in task files.
pub const FRONTMATTER_DELIMITER: &'static str = "---";

/// Error representing an invalid user invocation or configuration value
/// (reported with exit code 2).
#[derive(Debug)]
pub struct UsageError(pub String);

/// Error representing a lookup that found nothing (reported with exit code 1).
#[derive(Debug)]
pub struct NotFoundError(pub String);

/// Why a command failed, which decides the exit status: a usage error (2),
/// a missing item (1), or any other failure (1).
#[derive(Debug)]
pub enum CommandError {
    Usage(UsageError),
    NotFound(NotFoundError),
    Runtime(String),
}

impl CommandError {
    /// The error's message.
    pub fn message(&self) -> (m: &str)
        ensures
            m@ == match *self {
                CommandError::Usage(e) => e.0@,
                CommandError::NotFound(e) => e.0@,
                CommandError::Runtime(s) => s@,
            },
    {
        match self {
            CommandError::Usage(e) => e.0.as_str(),
            CommandError::NotFound(e) => e.0.as_str(),
            CommandError::Runtime(s) => s.as_str(),
        }
    }
}

/// The actionable lifecycle states of a task.
#[derive(Debug, PartialEq, Eq, Hash, Clone, Copy, Structural)]
pub enum LiveStatus {
    /// Task has not been started yet.
    Todo,
    /// Task is actively being worked on.
    InProgress,
}

/// The closed lifecycle states of a task.
#[derive(Debug, PartialEq, Eq, Hash, Clone, Copy, Structural)]
pub enum ClosedStatus {
    /// Task has been completed successfully.
    Done,
    /// Task has been abandoned without completion.
    Canceled,
}

/// The lifecycle state of a task.
#[derive(Debug, PartialEq, Eq, Hash, Clone, Copy, Structural)]
pub enum TaskStatus {
    /// Task can still be worked on.
    Live(LiveStatus),
    /// Task is in a terminal state.
    Closed(ClosedStatus),
}

/// The serialized name of a status.
pub open spec fn status_name(s: TaskStatus) -> Seq<char> {
    match s {
        TaskStatus::Live(LiveStatus::Todo) => "todo"@,
        TaskStatus::Live(LiveStatus::InProgress) => "in_progress"@,
        TaskStatus::Closed(ClosedStatus::Done) => "done"@,
        TaskStatus::Closed(ClosedStatus::Canceled) => "canceled"@,
    }
}

/// The human-readable label of a status.
pub open spec fn status_label(s: TaskStatus) -> Seq<char> {
    match s {
        TaskStatus::Live(LiveStatus::Todo) => "Todo"@,
        TaskStatus::Live(LiveStatus::InProgress) => "InProgress"@,
        TaskStatus::Closed(ClosedStatus::Done) => "Done"@,
        TaskStatus::Closed(ClosedStatus::Canceled) => "Canceled"@,
    }
}

/// The message of a rejected status name.
pub open spec fn invalid_status_message(s: Seq<char>) -> Seq<char> {
    "invalid status '"@ + s + "', expected one of: todo, in_progress, done, canceled"@
}

impl TaskStatus {
    pub fn todo() -> (s: Self)
        ensures
            s == TaskStatus::Live(LiveStatus::Todo),
    {
        TaskStatus::Live(LiveStatus::Todo)
    }

    pub fn in_progress() -> (s: Self)
        ensures
            s == TaskStatus::Live(LiveStatus::InProgress),
    {
        TaskStatus::Live(LiveStatus::InProgress)
    }

    pub fn done() -> (s: Self)
        ensures
            s == TaskStatus::Closed(ClosedStatus::Done),
    {
        TaskStatus::Closed(ClosedStatus::Done)
    }

    pub fn canceled() -> (s: Self)
        ensures
            s == TaskStatus::Closed(ClosedStatus::Canceled),
    {
        TaskStatus::Closed(ClosedStatus::Canceled)
    }

    /// Whether the status is open and workable (one of the live statuses).
    pub fn is_actionable(&self) -> (b: bool)
        ensures
            b == (*self is Live),
    {
        match self {
            TaskStatus::Live(_) => true,
            TaskStatus::Closed(_) => false,
        }
    }

    /// Whether the status is terminal (`done` or `canceled`).
    pub fn is_closed(&self) -> (b: bool)
        ensures
            b == (*self is Closed),
    {
        match self {
            TaskStatus::Live(_) => false,
            TaskStatus::Closed(_) => true,
        }
    }

    /// The contained live status, if the task is actionable.
    pub fn as_live(&self) -> (r: Option<LiveStatus>)
        ensures
            r == match *self {
                TaskStatus::Live(l) => Some(l),
                TaskStatus::Closed(_) => None,
            },
    {
        match self {
            TaskStatus::Live(status) => Some(*status),
            TaskStatus::Closed(_) => None,
        }
    }

    /// The contained closed status, if the task is terminal.
    pub fn as_closed(&self) -> (r: Option<ClosedStatus>)
        ensures
            r == match *self {
                TaskStatus::Live(_) => None,
                TaskStatus::Closed(c) => Some(c),
            },
    {
        match self {
            TaskStatus::Live(_) => None,
            TaskStatus::Closed(status) => Some(*status),
        }
    }

    /// The serialized name of the status (`todo`, `in_progress`, `done`, `canceled`).
    pub fn as_str(self) -> (r: &'static str)
        ensures
            r@ == status_name(self),
    {
        match self {
            TaskStatus::Live(LiveStatus::Todo) => "todo",
            TaskStatus::Live(LiveStatus::InProgress) => "in_progress",
            TaskStatus::Closed(ClosedStatus::Done) => "done",
            TaskStatus::Closed(ClosedStatus::Canceled) => "canceled",
        }
    }

    /// The human-readable label of the status (`Todo`, `InProgress`, `Done`, `Canceled`).
    pub fn label(self) -> (r: &'static str)
        ensures
            r@ == status_label(self),
    {
        match self {
            TaskStatus::Live(LiveStatus::Todo) => "Todo",
            TaskStatus::Live(LiveStatus::InProgress) => "InProgress",
            TaskStatus::Closed(ClosedStatus::Done) => "Done",
            TaskStatus::Closed(ClosedStatus::Canceled) => "Canceled",
        }
    }

    /// Parses a serialized status name.
    ///
    /// Succeeds exactly when `s` is one of the four names; otherwise the error
    /// message names the rejected input and the accepted names.
    pub fn parse(s: &str) -> (r: Result<TaskStatus, String>)
        ensures
            match r {
                Ok(t) => status_name(t) == s@,
                Err(msg) => (forall|t: TaskStatus| status_name(t) != s@)
                    && msg@ == invalid_status_message(s@),
            },
    {
        if same_str(s, "todo") {
            Ok(TaskStatus::Live(LiveStatus::Todo))
        } else if same_str(s, "in_progress") {
            Ok(TaskStatus::Live(LiveStatus::InProgress))
        } else if same_str(s, "done") {
            Ok(TaskStatus::Closed(ClosedStatus::Done))
        } else if same_str(s, "canceled") {
            Ok(TaskStatus::Closed(ClosedStatus::Canceled))
        } else {
            let mut msg = String::from_str("invalid status '");
            msg.append(s);
            msg.append("', expected one of: todo, in_progress, done, canceled");
            proof {
                assert forall|t: TaskStatus| status_name(t) != s@ by {
                    match t {
                        TaskStatus::Live(LiveStatus::Todo) => {},
                        TaskStatus::Live(LiveStatus::InProgress) => {},
                        TaskStatus::Closed(ClosedStatus::Done) => {},
                        TaskStatus::Closed(ClosedStatus::Canceled) => {},
                    }
                }
            }
            Err(msg)
        }
    }
}

/// The order of statuses used by `--sort status`: todo, in_progress, done, canceled.
pub open spec fn status_rank(s: TaskStatus) -> nat {
    match s {
        TaskStatus::Live(LiveStatus::Todo) => 0,
        TaskStatus::Live(LiveStatus::InProgress) => 1,
        TaskStatus::Closed(ClosedStatus::Done) => 2,
        TaskStatus::Closed(ClosedStatus::Canceled) => 3,
    }
}

/// The rank of a status in the `--sort status` order.
pub fn rank_of_status(s: TaskStatus) -> (r: u8)
    ensures
        r == status_rank(s),
{
    match s {
        TaskStatus::Live(LiveStatus::Todo) => 0,
        TaskStatus::Live(LiveStatus::InProgress) => 1,
        TaskStatus::Closed(ClosedStatus::Done) => 2,
        TaskStatus::Closed(ClosedStatus::Canceled) => 3,
    }
}

/// Why a priority value was rejected.
#[derive(Debug, PartialEq, Eq, Structural, Clone, Copy)]
pub struct PriorityRangeError;

/// Task priority, constrained to the inclusive range `0..=99` (lower is more urgent).
#[derive(Debug, PartialEq, Eq, Structural, Clone, Copy, Hash)]
pub struct Priority {
    value: u32,
}

impl Priority {
    #[verifier::type_invariant]
    spec fn in_range(self) -> bool {
        self.value <= 99
    }

    /// The numeric value of the priority.
    pub closed spec fn val(self) -> u32 {
        self.value
    }

    /// The smallest priority (0).
    pub fn min_value() -> (p: Priority)
        ensures
            p.val() == 0,
    {
        Priority { value: 0 }
    }

    /// Creates a priority; `None` outside `0..=99`.
    pub fn new(value: u32) -> (r: Option<Priority>)
        ensures
            r is Some <==> value <= 99,
            r matches Some(p) ==> p.val() == value,
    {
        if value <= 99 {
            Some(Priority { value })
        } else {
            None
        }
    }

    /// Converts a small integer to a priority, rejecting values above 99.
    pub fn try_from(value: u8) -> (r: Result<Priority, PriorityRangeError>)
        ensures
            r is Ok <==> value <= 99,
            r matches Ok(p) ==> p.val() == value,
    {
        if value <= 99 {
            Ok(Priority { value: value as u32 })
        } else {
            Err(PriorityRangeError)
        }
    }

    /// The numeric value of the priority, always at most 99.
    pub fn get(&self) -> (v: u32)
        ensures
            v == self.val(),
            v <= 99,
    {
        proof {
            use_type_invariant(self);
        }
        self.value
    }
}

impl From<Priority> for u32 {
    fn from(p: Priority) -> (v: u32) {
        p.get()
    }
}

impl vstd::std_specs::convert::FromSpecImpl<Priority> for u32 {
    open spec fn obeys_from_spec() -> bool {
        true
    }

    open spec fn from_spec(p: Priority) -> u32 {
        p.val()
    }
}

/// A UTC instant: whole seconds since the Unix epoch and the nanoseconds
/// within that second.
#[derive(Debug, PartialEq, Eq, Structural, Clone, Copy)]
pub struct Timestamp {
    pub secs: i64,
    pub nanos: u32,
}

/// Chronological order of two instants.
pub open spec fn time_order(a: Timestamp, b: Timestamp) -> Order {
    if a.secs < b.secs {
        Order::Less
    } else if a.secs > b.secs {
        Order::Greater
    } else if a.nanos < b.nanos {
        Order::Less
    } else if a.nanos > b.nanos {
        Order::Greater
    } else {
        Order::Equal
    }
}

/// Order of optional instants: an absent instant sorts first.
pub open spec fn opt_time_order(a: Option<Timestamp>, b: Option<Timestamp>) -> Order {
    match (a, b) {
        (None, None) => Order::Equal,
        (None, Some(_)) => Order::Less,
        (Some(_), None) => Order::Greater,
        (Some(x), Some(y)) => time_order(x, y),
    }
}

/// Comparing instants the other way round gives the opposite outcome.
pub proof fn lemma_opt_time_flip(a: Option<Timestamp>, b: Option<Timestamp>)
    ensures
        opt_time_order(b, a) == flip(opt_time_order(a, b)),
        opt_time_order(a, b) == Order::Equal <==> a == b,
{
}

/// The order of optional instants is transitive.
pub proof fn lemma_opt_time_trans(a: Option<Timestamp>, b: Option<Timestamp>, c: Option<Timestamp>)
    requires
        opt_time_order(a, b) != Order::Greater,
        opt_time_order(b, c) != Order::Greater,
    ensures
        opt_time_order(a, c) != Order::Greater,
        (opt_time_order(a, b) == Order::Less || opt_time_order(b, c) == Order::Less) ==> opt_time_order(a, c)
            == Order::Less,
{
}

/// Times compare chronologically: an instant with fewer whole seconds since
/// the epoch comes first, whatever the sub-second parts, and an unset time
/// comes before every set one.
pub proof fn lemma_time_order_by_seconds(x: Timestamp, y: Timestamp)
    ensures
        x.secs < y.secs ==> opt_time_order(Some(x), Some(y)) == Order::Less,
        x.secs > y.secs ==> opt_time_order(Some(x), Some(y)) == Order::Greater,
        opt_time_order(None, Some(y)) == Order::Less,
        opt_time_order(Some(x), None) == Order::Greater,
{
}

/// For instants of the ordinary kind (less than a second of nanoseconds),
/// the order is that of the total nanoseconds since the epoch: the earlier
/// instant comes first, and only the same instant compares equal.
pub proof fn lemma_time_order_total(x: Timestamp, y: Timestamp)
    requires
        x.nanos < 1_000_000_000,
        y.nanos < 1_000_000_000,
    ensures
        (opt_time_order(Some(x), Some(y)) == Order::Less) <==> x.secs * 1_000_000_000 + x.nanos < y.secs
            * 1_000_000_000 + y.nanos,
        (opt_time_order(Some(x), Some(y)) == Order::Equal) <==> x.secs * 1_000_000_000 + x.nanos == y.secs
            * 1_000_000_000 + y.nanos,
{
    let tx = x.secs * 1_000_000_000 + x.nanos;
    let ty = y.secs * 1_000_000_000 + y.nanos;
    if x.secs < y.secs {
        assert(tx < ty) by (nonlinear_arith)
            requires
                x.secs < y.secs,
                x.nanos < 1_000_000_000,
                tx == x.secs * 1_000_000_000 + x.nanos,
                ty == y.secs * 1_000_000_000 + y.nanos,
                0 <= y.nanos,
        ;
    } else if x.secs > y.secs {
        assert(tx > ty) by (nonlinear_arith)
            requires
                x.secs > y.secs,
                y.nanos < 1_000_000_000,
                tx == x.secs * 1_000_000_000 + x.nanos,
                ty == y.secs * 1_000_000_000 + y.nanos,
                0 <= x.nanos,
        ;
    }
}

/// Compares two optional instants.
pub fn order_opt_time(a: Option<Timestamp>, b: Option<Timestamp>) -> (r: Order)
    ensures
        r == opt_time_order(a, b),
{
    match (a, b) {
        (None, None) => Order::Equal,
        (None, Some(_)) => Order::Less,
        (Some(_), None) => Order::Greater,
        (Some(x), Some(y)) => {
            if x.secs < y.secs {
                Order::Less
            } else if x.secs > y.secs {
                Order::Greater
            } else if x.nanos < y.nanos {
                Order::Less
            } else if x.nanos > y.nanos {
                Order::Greater
            } else {
                Order::Equal
            }
        },
    }
}

/// The metadata block at the top of a task file.
#[derive(Debug)]
pub struct TaskFrontmatter {
    /// Unique, immutable task identifier (e.g. `"issue-abc123"`).
    pub id: String,
    /// Human-readable title of the task.
    pub title: String,
    /// Lifecycle state.
    pub status: TaskStatus,
    /// Optional priority (lower value = higher priority).
    pub priority: Option<Priority>,
    /// When the task was created.
    pub created_at: Option<Timestamp>,
    /// When the task was last modified.
    pub modified_at: Option<Timestamp>,
    /// When the task reached a terminal status.
    pub resolved_at: Option<Timestamp>,
    /// IDs of tasks that must reach a terminal status before the task is ready.
    pub needs: Vec<String>,
    /// Arbitrary labels attached to the task.
    pub tags: Vec<String>,
    /// Unknown keys preserved from parsing, each with its value as JSON text,
    /// in key order.
    pub extra: Vec<(String, String)>,
}

/// Copies a list of strings.
fn copy_string_vec(v: &Vec<String>) -> (r: Vec<String>)
    ensures
        r.deep_view() == v.deep_view(),
{
    let r = v.clone();
    assert(r@ =~= v@);
    assert(r.deep_view() =~= v.deep_view());
    r
}

/// Copies a list of key/value pairs.
fn copy_pairs(v: &Vec<(String, String)>) -> (r: Vec<(String, String)>)
    ensures
        pairs_view(r@) == pairs_view(v@),
{
    let mut r: Vec<(String, String)> = Vec::new();
    let mut i: usize = 0;
    while i < v.len()
        invariant
            i <= v.len(),
            r@.len() == i,
            forall|k: int| 0 <= k < i ==> r@[k].0@ == v@[k].0@ && r@[k].1@ == v@[k].1@,
        decreases v.len() - i,
    {
        let k = v[i].0.clone();
        let x = v[i].1.clone();
        r.push((k, x));
        i = i + 1;
    }
    assert(pairs_view(r@) =~= pairs_view(v@));
    r
}

/// The abstract content of a task's frontmatter, with every string taken by its characters.
pub struct FrontmatterView {
    pub id: Seq<char>,
    pub title: Seq<char>,
    pub status: TaskStatus,
    pub priority: Option<Priority>,
    pub created_at: Option<Timestamp>,
    pub modified_at: Option<Timestamp>,
    pub resolved_at: Option<Timestamp>,
    pub needs: Seq<Seq<char>>,
    pub tags: Seq<Seq<char>>,
    pub extra: Seq<(Seq<char>, Seq<char>)>,
}

/// The characters of each key/value pair.
pub open spec fn pairs_view(v: Seq<(String, String)>) -> Seq<(Seq<char>, Seq<char>)> {
    v.map_values(|p: (String, String)| (p.0@, p.1@))
}

impl View for TaskFrontmatter {
    type V = FrontmatterView;

    open spec fn view(&self) -> FrontmatterView {
        FrontmatterView {
            id: self.id@,
            title: self.title@,
            status: self.status,
            priority: self.priority,
            created_at: self.created_at,
            modified_at: self.modified_at,
            resolved_at: self.resolved_at,
            needs: self.needs.deep_view(),
            tags: self.tags.deep_view(),
            extra: pairs_view(self.extra@),
        }
    }
}

impl Clone for TaskFrontmatter {
    fn clone(&self) -> (r: Self)
        ensures
            r@ == self@,
    {
        TaskFrontmatter {
            id: self.id.clone(),
            title: self.title.clone(),
            status: self.status,
            priority: self.priority,
            created_at: self.created_at,
            modified_at: self.modified_at,
            resolved_at: self.resolved_at,
            needs: copy_string_vec(&self.needs),
            tags: copy_string_vec(&self.tags),
            extra: copy_pairs(&self.extra),
        }
    }
}

/// The in-memory representation of a task: its file path, frontmatter and
/// Markdown body.
#[derive(Debug)]
pub struct TaskNode {
    /// Path of the Markdown file.
    pub path: String,
    /// Parsed frontmatter.
    pub frontmatter: TaskFrontmatter,
    /// Markdown content after the closing frontmatter delimiter.
    pub body: String,
}

/// The abstract content of a task node.
pub struct NodeView {
    pub path: Seq<char>,
    pub fm: FrontmatterView,
    pub body: Seq<char>,
}

impl View for TaskNode {
    type V = NodeView;

    open spec fn view(&self) -> NodeView {
        NodeView { path: self.path@, fm: self.frontmatter@, body: self.body@ }
    }
}

impl Clone for TaskNode {
    fn clone(&self) -> (r: Self)
        ensures
            r@ == self@,
    {
        TaskNode { path: self.path.clone(), frontmatter: self.frontmatter.clone(), body: self.body.clone() }
    }
}

/// The Unix epoch, the timestamp used where none is known.
pub fn default_datetime() -> (t: Timestamp)
    ensures
        t == (Timestamp { secs: 0, nanos: 0 }),
{
    Timestamp { secs: 0, nanos: 0 }
}


/// Every status is either workable or closed, never both.
pub proof fn lemma_status_live_or_closed(s: TaskStatus)
    ensures
        (s is Live) != (s is Closed),
{
}

/// Different statuses have different names, so parsing the name of a status
/// gives that status back.
pub proof fn lemma_status_name_injective(a: TaskStatus, b: TaskStatus)
    ensures
        status_name(a) == status_name(b) ==> a == b,
{
    reveal_strlit("todo");
    reveal_strlit("in_progress");
    reveal_strlit("done");
    reveal_strlit("canceled");
    if a != b {
        let x = status_name(a);
        let y = status_name(b);
        assert(x.len() != y.len() || x[0] != y[0]);
    }
}
} // verus!
