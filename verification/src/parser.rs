//! Task files: the YAML frontmatter block between `---` lines, and the
//! Markdown body after it.
use crate::clock::{parse_rfc3339, rfc3339_parsed};
use crate::models::{Priority, TaskFrontmatter, TaskNode, TaskStatus, Timestamp};
use crate::text::{chars_of, push_char, rest_equals, string_from_chars, trim_range, trim_spec};
use vstd::prelude::*;
use vstd::string::StringExecFns;

verus! {

/// How many characters come before the first newline (the whole length when
/// there is none).
pub open spec fn find_nl(t: Seq<char>) -> nat
    decreases t.len(),
{
    if t.len() == 0 {
        0
    } else if t[0] == '\n' {
        0
    } else {
        1 + find_nl(t.drop_first())
    }
}

/// The pieces of a text that `str::split_inclusive('\n')` gives: each ends
/// with its newline, except a last piece without one.
pub open spec fn inclusive_segments(s: Seq<char>) -> Seq<Seq<char>>
    decreases s.len(),
{
    if s.len() == 0 {
        Seq::empty()
    } else {
        let k = find_nl(s) as int;
        if k >= s.len() {
            seq![s]
        } else {
            seq![s.take(k + 1)] + inclusive_segments(s.skip(k + 1))
        }
    }
}

/// A line as `str::lines` gives it: the piece without its `\n`, and without
/// a `\r` just before that `\n`.
pub open spec fn line_of(seg: Seq<char>) -> Seq<char> {
    if seg.len() > 0 && seg.last() == '\n' {
        let t = seg.drop_last();
        if t.len() > 0 && t.last() == '\r' {
            t.drop_last()
        } else {
            t
        }
    } else {
        seg
    }
}

/// The lines of a text, as `str::lines` gives them.
pub open spec fn lines_of(s: Seq<char>) -> Seq<Seq<char>> {
    inclusive_segments(s).map_values(|seg: Seq<char>| line_of(seg))
}

/// A line that, trimmed, is the `---` delimiter.
pub open spec fn is_delim(line: Seq<char>) -> bool {
    trim_spec(line) == "---"@
}

/// Line `e` is the first delimiter after the opening line.
pub open spec fn closing_at(lines: Seq<Seq<char>>, e: int) -> bool {
    1 <= e < lines.len() && is_delim(lines[e]) && forall|j: int| 1 <= j < e ==> !is_delim(#[trigger] lines[j])
}

/// The pieces joined back together.
pub open spec fn concat_all(ss: Seq<Seq<char>>) -> Seq<char>
    decreases ss.len(),
{
    if ss.len() == 0 {
        Seq::empty()
    } else {
        ss[0] + concat_all(ss.drop_first())
    }
}

/// The lines joined with `\n` between them.
pub open spec fn join_lines(ls: Seq<Seq<char>>) -> Seq<char>
    decreases ls.len(),
{
    if ls.len() == 0 {
        Seq::empty()
    } else if ls.len() == 1 {
        ls[0]
    } else {
        join_lines(ls.drop_last()) + seq!['\n'] + ls.last()
    }
}

/// The message when a file does not open with `---`.
pub open spec fn missing_opening_message() -> Seq<char> {
    "Missing or invalid YAML frontmatter: file must start with '---'"@
}

/// The message when the frontmatter is never closed.
pub open spec fn missing_closing_message() -> Seq<char> {
    "Missing closing '---' for YAML frontmatter"@
}

/// `find_nl` is the position of the first newline, or the length.
pub(crate) proof fn lemma_find_nl(t: Seq<char>, k: int)
    requires
        0 <= k <= t.len(),
        forall|m: int| 0 <= m < k ==> t[m] != '\n',
        k == t.len() || t[k] == '\n',
    ensures
        find_nl(t) == k,
    decreases t.len(),
{
    if t.len() > 0 && k > 0 {
        lemma_find_nl(t.drop_first(), k - 1);
    }
}

/// Joining the pieces gives the text back.
pub proof fn lemma_concat_segments(t: Seq<char>)
    ensures
        concat_all(inclusive_segments(t)) == t,
    decreases t.len(),
{
    if t.len() == 0 {
        assert(inclusive_segments(t) =~= Seq::<Seq<char>>::empty());
        assert(t =~= Seq::<char>::empty());
    } else {
        let k = find_nl(t) as int;
        lemma_find_nl_bound(t);
        if k >= t.len() {
            let ss = seq![t];
            assert(inclusive_segments(t) == ss);
            assert(ss.drop_first() =~= Seq::<Seq<char>>::empty());
            assert(concat_all(ss.drop_first()) =~= Seq::<char>::empty());
            assert(concat_all(ss) == ss[0] + concat_all(ss.drop_first()));
            assert(t + Seq::<char>::empty() =~= t);
        } else {
            lemma_concat_segments(t.skip(k + 1));
            let ss = seq![t.take(k + 1)] + inclusive_segments(t.skip(k + 1));
            assert(inclusive_segments(t) == ss);
            assert(ss[0] == t.take(k + 1));
            assert(ss.drop_first() =~= inclusive_segments(t.skip(k + 1)));
            assert(concat_all(ss) == ss[0] + concat_all(ss.drop_first()));
            assert(t.take(k + 1) + t.skip(k + 1) =~= t);
        }
    }
}

/// `find_nl` never exceeds the length.
proof fn lemma_find_nl_bound(t: Seq<char>)
    ensures
        find_nl(t) <= t.len(),
    decreases t.len(),
{
    if t.len() > 0 && t[0] != '\n' {
        lemma_find_nl_bound(t.drop_first());
    }
}

/// Splits a task file into its frontmatter text and its body.
///
/// The first line must be `---` (surrounding white space ignored); the
/// frontmatter runs up to the next such line; its lines are joined with
/// `\n`. The body is everything after the closing line's newline.
pub fn split_frontmatter(content: &str) -> (r: Result<(String, String), String>)
    ensures
        ({
            let lines = lines_of(content@);
            let opened = lines.len() > 0 && is_delim(lines[0]);
            match r {
                Err(m) => if !opened {
                    m@ == missing_opening_message()
                } else {
                    (forall|e: int| !#[trigger] closing_at(lines, e)) && m@ == missing_closing_message()
                },
                Ok((yaml, body)) => opened && exists|e: int|
                    #[trigger] closing_at(lines, e) && yaml@ == join_lines(lines.subrange(1, e)) && body@
                        == concat_all(inclusive_segments(content@).skip(e + 1)),
            }
        }),
{
    let v = chars_of(content);
    let n = v.len();
    let ghost segs = inclusive_segments(v@);
    let mut starts: Vec<usize> = Vec::new();
    let mut ends: Vec<usize> = Vec::new();
    let mut i: usize = 0;
    assert(v@.skip(0) =~= v@);
    while i < n
        invariant
            v@ == content@,
            n == v.len(),
            segs == inclusive_segments(v@),
            i <= n,
            starts.len() == ends.len(),
            segs == Seq::new(starts.len() as nat, |k: int| v@.subrange(starts@[k] as int, ends@[k] as int))
                + inclusive_segments(v@.skip(i as int)),
            forall|k: int| 0 <= k < starts.len() ==> #[trigger] starts@[k] < ends@[k] <= i,
            forall|k: int| 0 <= k < starts.len() ==> #[trigger] segs.skip(k + 1) == inclusive_segments(v@.skip(ends@[k] as int)),
        decreases n - i,
    {
        let mut j = i;
        while j < n && v[j] != '\n'
            invariant
                i <= j <= n,
                n == v.len(),
                forall|m: int| i <= m < j ==> v@[m] != '\n',
            decreases n - j,
        {
            j = j + 1;
        }
        let ghost t = v@.skip(i as int);
        proof {
            lemma_find_nl(t, j - i);
        }
        let end = if j < n {
            j + 1
        } else {
            n
        };
        let ghost before = Seq::new(starts.len() as nat, |k: int| v@.subrange(starts@[k] as int, ends@[k] as int));
        proof {
            if j < n {
                assert(t.take(j - i + 1) =~= v@.subrange(i as int, end as int));
                assert(t.skip(j - i + 1) =~= v@.skip(end as int));
                assert(inclusive_segments(t) == seq![v@.subrange(i as int, end as int)] + inclusive_segments(v@.skip(end as int)));
            } else {
                assert(t =~= v@.subrange(i as int, end as int));
                assert(v@.skip(end as int) =~= Seq::<char>::empty());
                assert(inclusive_segments(t) == seq![v@.subrange(i as int, end as int)]);
                assert(inclusive_segments(v@.skip(end as int)) =~= Seq::<Seq<char>>::empty());
            }
        }
        let ghost old_starts = starts@;
        let ghost old_ends = ends@;
        starts.push(i);
        ends.push(end);
        proof {
            assert forall|k: int| 0 <= k < starts.len() implies #[trigger] starts@[k] < ends@[k] <= end by {
                if k < old_starts.len() {
                    assert(starts@[k] == old_starts[k] && ends@[k] == old_ends[k]);
                }
            }
            let after = Seq::new(starts.len() as nat, |k: int| v@.subrange(starts@[k] as int, ends@[k] as int));
            assert(after =~= before.push(v@.subrange(i as int, end as int)));
            assert(segs =~= after + inclusive_segments(v@.skip(end as int)));
            assert(segs.skip(starts.len() as int) =~= inclusive_segments(v@.skip(end as int)));
        }
        i = end;
    }
    let m = starts.len();
    proof {
        assert(inclusive_segments(v@.skip(n as int)) =~= Seq::<Seq<char>>::empty()) by {
            assert(v@.skip(n as int) =~= Seq::<char>::empty());
        }
        assert(segs =~= Seq::new(m as nat, |k: int| v@.subrange(starts@[k] as int, ends@[k] as int)));
    }
    let ghost lines = lines_of(content@);
    assert(lines.len() == m);
    if m == 0 {
        return Err(String::from_str("Missing or invalid YAML frontmatter: file must start with '---'"));
    }
    if !line_is_delim(&v, starts[0], ends[0]) {
        return Err(String::from_str("Missing or invalid YAML frontmatter: file must start with '---'"));
    }
    let mut e: usize = 1;
    while e < m && !line_is_delim(&v, starts[e], ends[e])
        invariant
            1 <= e <= m,
            m == starts.len(),
            m == ends.len(),
            n == v.len(),
            v@ == content@,
            lines == lines_of(content@),
            segs == inclusive_segments(v@),
            segs == Seq::new(m as nat, |k: int| v@.subrange(starts@[k] as int, ends@[k] as int)),
            forall|k: int| 0 <= k < m ==> #[trigger] starts@[k] < ends@[k] <= n,
            forall|j: int| 1 <= j < e ==> !is_delim(#[trigger] lines[j]),
        decreases m - e,
    {
        e = e + 1;
    }
    if e == m {
        proof {
            assert forall|x: int| !#[trigger] closing_at(lines, x) by {}
        }
        return Err(String::from_str("Missing closing '---' for YAML frontmatter"));
    }
    let mut yaml = String::new();
    let mut k: usize = 1;
    while k < e
        invariant
            1 <= k <= e < m,
            m == starts.len(),
            m == ends.len(),
            n == v.len(),
            v@ == content@,
            lines == lines_of(content@),
            segs == inclusive_segments(v@),
            segs == Seq::new(m as nat, |x: int| v@.subrange(starts@[x] as int, ends@[x] as int)),
            forall|x: int| 0 <= x < m ==> #[trigger] starts@[x] < ends@[x] <= n,
            yaml@ == join_lines(lines.subrange(1, k as int)),
        decreases e - k,
    {
        if k > 1 {
            push_char(&mut yaml, '\n');
        }
        let (lo, hi) = line_bounds(&v, starts[k], ends[k]);
        let mut x = lo;
        let ghost base = yaml@;
        while x < hi
            invariant
                lo <= x <= hi <= n,
                n == v.len(),
                yaml@ == base + v@.subrange(lo as int, x as int),
            decreases hi - x,
        {
            push_char(&mut yaml, v[x]);
            assert(v@.subrange(lo as int, x + 1) =~= v@.subrange(lo as int, x as int).push(v@[x as int]));
            x = x + 1;
        }
        proof {
            let ls = lines.subrange(1, k + 1);
            assert(ls.drop_last() =~= lines.subrange(1, k as int));
            assert(ls.last() == lines[k as int]);
            assert(lines[k as int] == line_of(segs[k as int]));
        }
        k = k + 1;
    }
    let mut body_chars: Vec<char> = Vec::new();
    let mut b = ends[e];
    let start_body = b;
    while b < n
        invariant
            start_body <= b <= n,
            n == v.len(),
            body_chars@ == v@.subrange(start_body as int, b as int),
        decreases n - b,
    {
        body_chars.push(v[b]);
        assert(v@.subrange(start_body as int, b + 1) =~= v@.subrange(start_body as int, b as int).push(v@[b as int]));
        b = b + 1;
    }
    proof {
        lemma_concat_segments(v@.skip(start_body as int));
        assert(v@.subrange(start_body as int, n as int) =~= v@.skip(start_body as int));
        assert(closing_at(lines, e as int));
    }
    let body = string_from_chars(&body_chars);
    Ok((yaml, body))
}

/// The bounds of line `k`'s characters within its piece `[s, t)`.
fn line_bounds(v: &Vec<char>, s: usize, t: usize) -> (r: (usize, usize))
    requires
        s < t <= v.len(),
    ensures
        s <= r.0 <= r.1 <= t,
        r.0 == s,
        v@.subrange(r.0 as int, r.1 as int) == line_of(v@.subrange(s as int, t as int)),
{
    let ghost seg = v@.subrange(s as int, t as int);
    if v[t - 1] == '\n' {
        assert(seg.drop_last() =~= v@.subrange(s as int, t - 1));
        if t - 1 > s && v[t - 2] == '\r' {
            assert(seg.drop_last().drop_last() =~= v@.subrange(s as int, t - 2));
            (s, t - 2)
        } else {
            (s, t - 1)
        }
    } else {
        (s, t)
    }
}

/// Whether the line in the piece `[s, t)` is the `---` delimiter.
fn line_is_delim(v: &Vec<char>, s: usize, t: usize) -> (r: bool)
    requires
        s < t <= v.len(),
    ensures
        r == is_delim(line_of(v@.subrange(s as int, t as int))),
{
    let (lo, hi) = line_bounds(v, s, t);
    let trimmed = trim_range(v, lo, hi);
    assert(trimmed@.skip(0) =~= trimmed@);
    rest_equals(&trimmed, 0, "---")
}


/// The frontmatter as read from YAML, with its instants still as text.
pub struct RawFrontmatter {
    pub id: String,
    pub title: String,
    pub status: TaskStatus,
    pub priority: Option<Priority>,
    pub created_at: Option<String>,
    pub modified_at: Option<String>,
    pub resolved_at: Option<String>,
    pub needs: Vec<String>,
    pub tags: Vec<String>,
    /// Unknown keys, each with its value as JSON text, in key order.
    pub extra: Vec<(String, String)>,
}

/// What an optional RFC 3339 field parses to: the instant, or the error text.
pub open spec fn parsed_time(raw: Option<String>) -> Result<Option<Timestamp>, Seq<char>> {
    match raw {
        None => Ok(None),
        Some(t) => match rfc3339_parsed(t@) {
            Ok(p) => Ok(Some(Timestamp { secs: p.0, nanos: p.1 })),
            Err(e) => Err(e),
        },
    }
}

/// The message for a field whose instant does not parse.
pub open spec fn bad_time_message(field: Seq<char>, raw: Seq<char>, err: Seq<char>) -> Seq<char> {
    "Invalid '"@ + field + "' datetime '"@ + raw + "': "@ + err
}

/// Parses an optional RFC 3339 field named `field`.
pub fn parse_optional_datetime(value: &Option<String>, field: &str) -> (r: Result<Option<Timestamp>, String>)
    ensures
        match (parsed_time(*value), r) {
            (Ok(t), Ok(u)) => t == u,
            (Err(e), Err(m)) => m@ == bad_time_message(field@, value->Some_0@, e),
            _ => false,
        },
{
    match value {
        None => Ok(None),
        Some(raw) => match parse_rfc3339(raw.as_str()) {
            Ok(t) => Ok(Some(t)),
            Err(e) => {
                let mut m = String::from_str("Invalid '");
                m.append(field);
                m.append("' datetime '");
                m.append(raw.as_str());
                m.append("': ");
                m.append(e.as_str());
                Err(m)
            },
        },
    }
}

/// Builds a task from its path, its frontmatter as read and its body.
///
/// The three instants are parsed in the order `created_at`, `modified_at`,
/// `resolved_at`; the first that does not parse is reported.
pub fn build_task_node(path: String, raw: RawFrontmatter, body: String) -> (r: Result<TaskNode, String>)
    ensures
        ({
            let c = parsed_time(raw.created_at);
            let m = parsed_time(raw.modified_at);
            let v = parsed_time(raw.resolved_at);
            &&& (r is Ok <==> c is Ok && m is Ok && v is Ok)
            &&& (r matches Err(msg) ==> if c is Err {
                msg@ == bad_time_message("created_at"@, raw.created_at->Some_0@, c->Err_0)
            } else if m is Err {
                msg@ == bad_time_message("modified_at"@, raw.modified_at->Some_0@, m->Err_0)
            } else {
                msg@ == bad_time_message("resolved_at"@, raw.resolved_at->Some_0@, v->Err_0)
            })
            &&& (r matches Ok(node) ==> {
                &&& node.path == path
                &&& node.body == body
                &&& node.frontmatter.id == raw.id
                &&& node.frontmatter.title == raw.title
                &&& node.frontmatter.status == raw.status
                &&& node.frontmatter.priority == raw.priority
                &&& Ok::<Option<Timestamp>, Seq<char>>(node.frontmatter.created_at) == c
                &&& Ok::<Option<Timestamp>, Seq<char>>(node.frontmatter.modified_at) == m
                &&& Ok::<Option<Timestamp>, Seq<char>>(node.frontmatter.resolved_at) == v
                &&& node.frontmatter.needs == raw.needs
                &&& node.frontmatter.tags == raw.tags
                &&& node.frontmatter.extra == raw.extra
            })
        }),
{
    let created_at = parse_optional_datetime(&raw.created_at, "created_at")?;
    let modified_at = parse_optional_datetime(&raw.modified_at, "modified_at")?;
    let resolved_at = parse_optional_datetime(&raw.resolved_at, "resolved_at")?;
    let RawFrontmatter { id, title, status, priority, needs, tags, extra, .. } = raw;
    Ok(TaskNode {
        path,
        frontmatter: TaskFrontmatter {
            id,
            title,
            status,
            priority,
            created_at,
            modified_at,
            resolved_at,
            needs,
            tags,
            extra,
        },
        body,
    })
}
} // verus!
