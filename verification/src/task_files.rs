//! How task files are written, recognised, named and archived.
use crate::text::{chars_of, push_char, string_from_chars, trim_range, trim_spec};
use vstd::prelude::*;
use vstd::string::StringExecFns;

verus! {

/// The text without `p` in front, when it starts with `p`.
pub open spec fn strip_prefix_seq(s: Seq<char>, p: Seq<char>) -> Seq<char> {
    if p.len() <= s.len() && s.take(p.len() as int) == p {
        s.skip(p.len() as int)
    } else {
        s
    }
}

/// The text without `p` at its end, when it ends with `p`.
pub open spec fn strip_suffix_seq(s: Seq<char>, p: Seq<char>) -> Seq<char> {
    if p.len() <= s.len() && s.skip(s.len() - p.len()) == p {
        s.take(s.len() - p.len())
    } else {
        s
    }
}

/// The text, with a line break added unless it already ends with one.
pub open spec fn with_final_newline(s: Seq<char>) -> Seq<char> {
    if s.len() > 0 && s.last() == '\n' {
        s
    } else {
        s.push('\n')
    }
}

/// The frontmatter section of a task file made from serialized YAML: without
/// a leading document marker `---` line and a trailing `...` end marker, and
/// ending with a line break.
pub open spec fn yaml_section(yaml: Seq<char>) -> Seq<char> {
    with_final_newline(strip_suffix_seq(strip_prefix_seq(yaml, "---\n"@), "...\n"@))
}

/// The full text of a task file: the frontmatter between `---` lines,
/// then the trimmed body right after the closing line, so that the body
/// reads back as it was written.
pub open spec fn task_file_text(yaml: Seq<char>, body: Seq<char>) -> Seq<char> {
    "---\n"@ + yaml_section(yaml) + "---\n"@ + trim_spec(body)
}

/// Whether the characters of `w` stand in `v` at position `from`.
fn matches_at(v: &Vec<char>, from: usize, w: &Vec<char>) -> (r: bool)
    requires
        from <= v.len(),
    ensures
        r == (w.len() <= v.len() - from && v@.subrange(from as int, from + w.len()) == w@),
{
    if w.len() > v.len() - from {
        return false;
    }
    let mut i: usize = 0;
    while i < w.len()
        invariant
            from <= v.len(),
            w.len() <= v.len() - from,
            i <= w.len(),
            forall|k: int| 0 <= k < i ==> v@[from + k] == w@[k],
        decreases w.len() - i,
    {
        if v[from + i] != w[i] {
            assert(v@.subrange(from as int, from + w.len())[i as int] != w@[i as int]);
            return false;
        }
        i = i + 1;
    }
    assert(v@.subrange(from as int, from + w.len()) =~= w@);
    true
}

/// The text of a task file from its serialized frontmatter and its body.
pub fn frame_task_file(yaml: &str, body: &str) -> (r: String)
    ensures
        r@ == task_file_text(yaml@, body@),
{
    let y = chars_of(yaml);
    let open_marker = chars_of("---\n");
    let end_marker = chars_of("...\n");
    proof {
        reveal_strlit("---\n");
        reveal_strlit("...\n");
    }
    let mut lo: usize = 0;
    if matches_at(&y, 0, &open_marker) {
        lo = open_marker.len();
        assert(y@.take(4) =~= y@.subrange(0, 4));
        assert(y@.skip(4) =~= y@.subrange(4, y@.len() as int));
    } else {
        proof {
            assert(y@.subrange(0, y@.len() as int) =~= y@);
            if 4 <= y@.len() {
                assert(y@.take(4) =~= y@.subrange(0, 4));
            }
        }
    }
    let ghost a = strip_prefix_seq(yaml@, "---\n"@);
    assert(a =~= y@.subrange(lo as int, y@.len() as int));
    let mut hi: usize = y.len();
    if y.len() - lo >= end_marker.len() && matches_at(&y, y.len() - end_marker.len(), &end_marker) {
        hi = y.len() - end_marker.len();
        assert(a.skip(a.len() - 4) =~= y@.subrange(hi as int, y@.len() as int));
        assert(a.take(a.len() - 4) =~= y@.subrange(lo as int, hi as int));
    } else {
        proof {
            if 4 <= a.len() {
                assert(a.skip(a.len() - 4) =~= y@.subrange(y@.len() - 4, y@.len() as int));
            }
        }
    }
    let ghost b = strip_suffix_seq(a, "...\n"@);
    assert(b =~= y@.subrange(lo as int, hi as int));
    let mut r = String::from_str("---\n");
    let mut i: usize = lo;
    while i < hi
        invariant
            lo <= i <= hi <= y.len(),
            r@ == "---\n"@ + y@.subrange(lo as int, i as int),
        decreases hi - i,
    {
        push_char(&mut r, y[i]);
        assert(y@.subrange(lo as int, i + 1) =~= y@.subrange(lo as int, i as int).push(y@[i as int]));
        i = i + 1;
    }
    if hi == lo || y[hi - 1] != '\n' {
        push_char(&mut r, '\n');
    }
    assert(r@ == "---\n"@ + yaml_section(yaml@));
    let bv = chars_of(body);
    let t = trim_range(&bv, 0, bv.len());
    assert(bv@.subrange(0, bv@.len() as int) =~= body@);
    r.append("---\n");
    let ts = string_from_chars(&t);
    r.append(ts.as_str());
    r
}

/// Whether a Markdown file found under the tasks directory is read as a
/// task: any file but `AGENTS.md` whose content starts with `---`.
pub open spec fn is_task_candidate_spec(file_name: Seq<char>, content: Seq<char>) -> bool {
    file_name != "AGENTS.md"@ && 3 <= content.len() && content.take(3) == "---"@
}

/// Whether a Markdown file found under the tasks directory is read as a task.
pub fn is_task_candidate(file_name: &str, content: &str) -> (r: bool)
    ensures
        r == is_task_candidate_spec(file_name@, content@),
{
    let name = chars_of(file_name);
    let agents = chars_of("AGENTS.md");
    proof {
        reveal_strlit("AGENTS.md");
        reveal_strlit("---");
    }
    let is_agents = name.len() == agents.len() && matches_at(&name, 0, &agents);
    proof {
        if name.len() == agents.len() {
            assert(name@.subrange(0, name@.len() as int) =~= name@);
        }
    }
    if is_agents {
        return false;
    }
    let c = chars_of(content);
    let marker = chars_of("---");
    let r = matches_at(&c, 0, &marker);
    proof {
        if 3 <= c@.len() {
            assert(c@.take(3) =~= c@.subrange(0, 3));
        }
    }
    r
}

} // verus!
