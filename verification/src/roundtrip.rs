//! Reading back a written task file gives what was written.
use crate::parser::{
    closing_at, concat_all, find_nl, inclusive_segments, is_delim, join_lines, lemma_concat_segments, lemma_find_nl,
    line_of, lines_of,
};
use crate::task_files::{task_file_text, yaml_section};
use crate::text::{trim_end_spec, trim_spec, trim_start_spec};
use vstd::prelude::*;

verus! {

/// `find_nl` is the position of the first newline, or the length.
proof fn lemma_find_nl_props(t: Seq<char>)
    ensures
        find_nl(t) <= t.len(),
        forall|m: int| 0 <= m < find_nl(t) ==> t[m] != '\n',
        find_nl(t) < t.len() ==> t[find_nl(t) as int] == '\n',
    decreases t.len(),
{
    if t.len() > 0 && t[0] != '\n' {
        lemma_find_nl_props(t.drop_first());
        assert forall|m: int| 0 <= m < find_nl(t) implies t[m] != '\n' by {
            if m > 0 {
                assert(t[m] == t.drop_first()[m - 1]);
            }
        }
    }
}

/// The pieces of a text that ends with a newline, followed by more text,
/// are the pieces of each.
proof fn lemma_segments_append(a: Seq<char>, b: Seq<char>)
    requires
        a.len() > 0,
        a.last() == '\n',
    ensures
        inclusive_segments(a + b) == inclusive_segments(a) + inclusive_segments(b),
    decreases a.len(),
{
    lemma_find_nl_props(a);
    let k = find_nl(a) as int;
    if k == a.len() {
        assert(a[a.len() - 1] != '\n');
    }
    assert forall|m: int| 0 <= m < k implies (a + b)[m] != '\n' by {
        assert((a + b)[m] == a[m]);
    }
    lemma_find_nl(a + b, k);
    assert((a + b).take(k + 1) =~= a.take(k + 1));
    assert((a + b).skip(k + 1) =~= a.skip(k + 1) + b);
    if k + 1 == a.len() {
        assert(a.skip(k + 1) =~= Seq::<char>::empty());
        assert(a.skip(k + 1) + b =~= b);
        assert(inclusive_segments(a.skip(k + 1)) =~= Seq::<Seq<char>>::empty());
    } else {
        assert(a.skip(k + 1).last() == a.last());
        lemma_segments_append(a.skip(k + 1), b);
    }
    let sa = inclusive_segments(a.skip(k + 1));
    let sb = inclusive_segments(b);
    assert(inclusive_segments(a + b) == seq![a.take(k + 1)] + inclusive_segments(a.skip(k + 1) + b));
    assert(inclusive_segments(a) == seq![a.take(k + 1)] + sa);
    assert(seq![a.take(k + 1)] + (sa + sb) =~= (seq![a.take(k + 1)] + sa) + sb);
}

/// Every piece of a text that ends with a newline ends with one.
proof fn lemma_segments_end_newline(t: Seq<char>)
    requires
        t.len() == 0 || t.last() == '\n',
    ensures
        forall|k: int|
            0 <= k < inclusive_segments(t).len() ==> (#[trigger] inclusive_segments(t)[k]).len() > 0
                && inclusive_segments(t)[k].last() == '\n',
    decreases t.len(),
{
    if t.len() > 0 {
        lemma_find_nl_props(t);
        let k = find_nl(t) as int;
        if k == t.len() {
            assert(t[t.len() - 1] != '\n');
        }
        if k + 1 < t.len() {
            assert(t.skip(k + 1).last() == t.last());
        }
        lemma_segments_end_newline(t.skip(k + 1));
        let ss = inclusive_segments(t);
        assert(ss == seq![t.take(k + 1)] + inclusive_segments(t.skip(k + 1)));
        assert forall|j: int| 0 <= j < ss.len() implies (#[trigger] ss[j]).len() > 0 && ss[j].last() == '\n' by {
            if j > 0 {
                assert(ss[j] == inclusive_segments(t.skip(k + 1))[j - 1]);
            } else {
                assert(ss[0] == t.take(k + 1));
                assert(t.take(k + 1).last() == t[k]);
            }
        }
    }
}

/// A text that is not empty has at least one piece.
proof fn lemma_segments_nonempty(t: Seq<char>)
    requires
        t.len() > 0,
    ensures
        inclusive_segments(t).len() > 0,
{
    lemma_find_nl_props(t);
}

/// Joining one more piece at the end.
proof fn lemma_concat_push(ss: Seq<Seq<char>>, x: Seq<char>)
    ensures
        concat_all(ss.push(x)) == concat_all(ss) + x,
    decreases ss.len(),
{
    if ss.len() == 0 {
        assert(ss.push(x).drop_first() =~= Seq::<Seq<char>>::empty());
        assert(concat_all(ss.push(x)) == x + concat_all(Seq::<Seq<char>>::empty()));
        assert(x + Seq::<char>::empty() =~= x);
        assert(Seq::<char>::empty() + x =~= x);
    } else {
        lemma_concat_push(ss.drop_first(), x);
        assert(ss.push(x).drop_first() =~= ss.drop_first().push(x));
        assert(concat_all(ss.push(x)) == ss[0] + concat_all(ss.drop_first().push(x)));
        assert(ss[0] + (concat_all(ss.drop_first()) + x) =~= (ss[0] + concat_all(ss.drop_first())) + x);
    }
}

/// Lines that are pieces without their final newline, joined with newlines,
/// give the pieces joined, less the final newline.
proof fn lemma_join_stripped(ss: Seq<Seq<char>>)
    requires
        ss.len() > 0,
        forall|k: int| 0 <= k < ss.len() ==> (#[trigger] ss[k]).len() > 0 && ss[k].last() == '\n',
    ensures
        join_lines(ss.map_values(|s: Seq<char>| s.drop_last())) == concat_all(ss).drop_last(),
        concat_all(ss).len() > 0,
        concat_all(ss).last() == '\n',
    decreases ss.len(),
{
    let ls = ss.map_values(|s: Seq<char>| s.drop_last());
    let x = ss.last();
    lemma_concat_push(ss.drop_last(), x);
    assert(ss.drop_last().push(x) =~= ss);
    if ss.len() == 1 {
        assert(ss.drop_last() =~= Seq::<Seq<char>>::empty());
        assert(concat_all(Seq::<Seq<char>>::empty()) =~= Seq::<char>::empty());
        assert(concat_all(ss) =~= x);
        assert(join_lines(ls) == ls[0]);
    } else {
        lemma_join_stripped(ss.drop_last());
        let c = concat_all(ss.drop_last());
        assert(ls.drop_last() =~= ss.drop_last().map_values(|s: Seq<char>| s.drop_last()));
        assert(join_lines(ls) == join_lines(ls.drop_last()) + seq!['\n'] + ls.last());
        assert(c =~= c.drop_last() + seq!['\n']);
        assert(x =~= x.drop_last() + seq!['\n']);
        assert(concat_all(ss) == c + x);
        assert((c + x).drop_last() =~= c.drop_last() + seq!['\n'] + x.drop_last());
    }
}

/// No line of a frontmatter section is a `---` delimiter, and each line is
/// its piece less the final newline (no carriage return before it).
pub open spec fn section_lines_plain(s: Seq<char>) -> bool {
    forall|k: int|
        0 <= k < inclusive_segments(s).len() ==> !is_delim(line_of(#[trigger] inclusive_segments(s)[k])) && line_of(
            inclusive_segments(s)[k],
        ) == inclusive_segments(s)[k].drop_last()
}

/// A task file reads back as it was written: its first line opens the
/// frontmatter, the closing delimiter comes right after the lines of the
/// serialized YAML (and no other closing line is possible), the frontmatter
/// read is that YAML less its final newline, and the body read is the body
/// written, trimmed. This holds for YAML none of whose lines is a
/// `---` delimiter (surrounding white space ignored) or ends in a carriage
/// return.
pub proof fn lemma_task_file_reads_back(yaml: Seq<char>, body: Seq<char>)
    requires
        section_lines_plain(yaml_section(yaml)),
    ensures
        ({
            let content = task_file_text(yaml, body);
            let lines = lines_of(content);
            let e = inclusive_segments(yaml_section(yaml)).len() as int + 1;
            &&& lines.len() > 0 && is_delim(lines[0])
            &&& closing_at(lines, e)
            &&& forall|e2: int| #[trigger] closing_at(lines, e2) ==> e2 == e
            &&& join_lines(lines.subrange(1, e)) == yaml_section(yaml).drop_last()
            &&& concat_all(inclusive_segments(content).skip(e + 1)) == trim_spec(body)
        }),
{
    reveal_strlit("---\n");
    reveal_strlit("---");
    let s = yaml_section(yaml);
    let b = trim_spec(body);
    let p = "---\n"@;
    let r = b;
    let content = task_file_text(yaml, body);
    assert(content =~= p + (s + (p + r)));
    assert(s.len() > 0 && s.last() == '\n');
    let segs_p = inclusive_segments(p);
    assert(find_nl(p) == 3) by {
        lemma_find_nl(p, 3);
    }
    assert(p.skip(4) =~= Seq::<char>::empty());
    assert(p.take(4) =~= p);
    assert(inclusive_segments(p) == seq![p.take(4)] + inclusive_segments(p.skip(4)));
    assert(inclusive_segments(p.skip(4)) =~= Seq::<Seq<char>>::empty());
    assert(segs_p =~= seq![p]);
    lemma_segments_append(p, s + (p + r));
    lemma_segments_append(s, p + r);
    lemma_segments_append(p, r);
    let ss = inclusive_segments(s);
    let sr = inclusive_segments(r);
    let n = ss.len() as int;
    let all = inclusive_segments(content);
    assert(all =~= seq![p] + ss + seq![p] + sr);
    lemma_segments_end_newline(s);
    lemma_segments_nonempty(s);
    let lines = lines_of(content);
    assert(line_of(p) =~= "---"@);
    assert(trim_end_spec("---"@) == "---"@);
    assert(trim_start_spec("---"@) == "---"@);
    assert(is_delim("---"@));
    assert(lines[0] == line_of(p));
    assert(lines[n + 1] == line_of(p));
    assert forall|j: int| 1 <= j < n + 1 implies !is_delim(#[trigger] lines[j]) by {
        assert(all[j] == ss[j - 1]);
        assert(lines[j] == line_of(ss[j - 1]));
    }
    assert(closing_at(lines, n + 1));
    assert forall|e2: int| #[trigger] closing_at(lines, e2) implies e2 == n + 1 by {
        if e2 < n + 1 {
            assert(!is_delim(lines[e2]));
        } else if e2 > n + 1 {
            assert(!is_delim(lines[n + 1]));
        }
    }
    let mid = lines.subrange(1, n + 1);
    assert(mid =~= ss.map_values(|x: Seq<char>| x.drop_last())) by {
        assert forall|j: int| 0 <= j < n implies mid[j] == ss[j].drop_last() by {
            assert(all[j + 1] == ss[j]);
            assert(lines[j + 1] == line_of(ss[j]));
        }
    }
    lemma_join_stripped(ss);
    lemma_concat_segments(s);
    assert(all.skip(n + 2) =~= sr);
    lemma_concat_segments(r);
}

} // verus!
