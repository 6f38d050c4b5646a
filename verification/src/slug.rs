//! File names from task titles.
use crate::text::{chars_of, push_char, string_from_chars};
use vstd::prelude::*;
use vstd::string::StringExecFns;

verus! {

/// The ASCII transliteration that `deunicode::deunicode` gives a text.
pub uninterp spec fn deunicode_of(s: Seq<char>) -> Seq<char>;

/// Transliterates a text to ASCII with `deunicode::deunicode`; the result is
/// the named [`deunicode_of`] of the text.
#[verifier::external_body]
pub(crate) fn transliterate(s: &str) -> (r: String)
    ensures
        r@ == deunicode_of(s@),
{
    deunicode::deunicode(s)
}

/// The longest slug kept.
pub const MAX_SLUG_LEN: usize = 80;

/// An ASCII letter or digit.
pub open spec fn is_ascii_alnum(c: char) -> bool {
    ('0' <= c && c <= '9') || ('a' <= c && c <= 'z') || ('A' <= c && c <= 'Z')
}

/// The ASCII lowercase form of a character.
pub open spec fn ascii_lower(c: char) -> char {
    if 'A' <= c && c <= 'Z' {
        ((c as u32) + 32) as char
    } else {
        c
    }
}

/// The slug of a transliterated text before trimming: letters and digits
/// lowercased, `_` kept, and every other run of characters after some output
/// turned into one `-`.
pub open spec fn slug_scan(t: Seq<char>) -> Seq<char>
    decreases t.len(),
{
    if t.len() == 0 {
        Seq::empty()
    } else {
        let prev = slug_scan(t.drop_last());
        let c = t.last();
        if is_ascii_alnum(c) {
            prev.push(ascii_lower(c))
        } else if c == '_' {
            prev.push('_')
        } else if prev.len() > 0 && prev.last() != '-' {
            prev.push('-')
        } else {
            prev
        }
    }
}

/// The text without its trailing `-` characters.
pub open spec fn trim_dashes(s: Seq<char>) -> Seq<char>
    decreases s.len(),
{
    if s.len() > 0 && s.last() == '-' {
        trim_dashes(s.drop_last())
    } else {
        s
    }
}

/// The slug of a title: the slug of its transliteration (see
/// [`slug_of_text`]).
pub open spec fn slug_of(title: Seq<char>) -> Seq<char> {
    slug_of_text(deunicode_of(title))
}

/// The slug of a transliterated text: scanned, trailing dashes trimmed, cut
/// to 80 characters (and trimmed again), or `task` when nothing is left.
pub open spec fn slug_of_text(t: Seq<char>) -> Seq<char> {
    let s1 = trim_dashes(slug_scan(t));
    let s2 = if s1.len() > 80 {
        trim_dashes(s1.take(80))
    } else {
        s1
    };
    if s2.len() == 0 {
        "task"@
    } else {
        s2
    }
}

/// A character that may appear in a slug.
pub open spec fn slug_char(c: char) -> bool {
    ('0' <= c && c <= '9') || ('a' <= c && c <= 'z') || c == '_' || c == '-'
}

/// Scanning only ever yields slug characters, never starts with `-` and
/// never repeats `-`.
pub proof fn lemma_slug_scan_shape(t: Seq<char>)
    ensures
        forall|i: int| 0 <= i < slug_scan(t).len() ==> slug_char(#[trigger] slug_scan(t)[i]),
        slug_scan(t).len() > 0 ==> slug_scan(t)[0] != '-',
        forall|i: int| 0 <= i < slug_scan(t).len() - 1 ==> !(#[trigger] slug_scan(t)[i] == '-' && slug_scan(t)[i + 1] == '-'),
    decreases t.len(),
{
    if t.len() > 0 {
        lemma_slug_scan_shape(t.drop_last());
        let prev = slug_scan(t.drop_last());
        let c = t.last();
        let s = slug_scan(t);
        assert forall|i: int| 0 <= i < s.len() implies slug_char(#[trigger] s[i]) by {
            if i < prev.len() {
                assert(s[i] == prev[i]);
            }
        }
        assert forall|i: int| 0 <= i < s.len() - 1 implies !(#[trigger] s[i] == '-' && s[i + 1] == '-') by {
            if i < prev.len() - 1 {
                assert(s[i] == prev[i] && s[i + 1] == prev[i + 1]);
            } else if i == prev.len() - 1 {
                assert(s[i] == prev.last());
            }
        }
        if prev.len() > 0 {
            assert(s[0] == prev[0]);
        }
    }
}

/// Scanning a text with no ASCII letter, digit or `_` yields nothing.
proof fn lemma_scan_empty(t: Seq<char>)
    requires
        forall|i: int| 0 <= i < t.len() ==> !is_ascii_alnum(#[trigger] t[i]) && t[i] != '_',
    ensures
        slug_scan(t).len() == 0,
    decreases t.len(),
{
    if t.len() > 0 {
        lemma_scan_empty(t.drop_last());
        assert(!is_ascii_alnum(t[t.len() - 1]) && t[t.len() - 1] != '_');
    }
}

/// A title whose transliteration holds no ASCII letter, digit or `_` gets
/// the slug `task`.
pub proof fn lemma_slug_fallback(title: Seq<char>)
    requires
        forall|i: int|
            0 <= i < deunicode_of(title).len() ==> !is_ascii_alnum(#[trigger] deunicode_of(title)[i])
                && deunicode_of(title)[i] != '_',
    ensures
        slug_of(title) == "task"@,
{
    lemma_scan_empty(deunicode_of(title));
}

/// Trimming dashes keeps a prefix and leaves no trailing `-`.
pub proof fn lemma_trim_dashes(s: Seq<char>)
    ensures
        trim_dashes(s).len() <= s.len(),
        trim_dashes(s) == s.take(trim_dashes(s).len() as int),
        trim_dashes(s).len() > 0 ==> trim_dashes(s).last() != '-',
    decreases s.len(),
{
    if s.len() > 0 && s.last() == '-' {
        lemma_trim_dashes(s.drop_last());
        let t = trim_dashes(s.drop_last());
        assert(s.drop_last().take(t.len() as int) =~= s.take(t.len() as int));
    } else {
        assert(s.take(s.len() as int) =~= s);
    }
}

/// Drops trailing `-` characters.
fn trim_dash_chars(v: &mut Vec<char>)
    ensures
        final(v)@ == trim_dashes(old(v)@),
{
    while v.len() > 0 && v[v.len() - 1] == '-'
        invariant
            trim_dashes(v@) == trim_dashes(old(v)@),
        decreases v.len(),
    {
        let ghost before = v@;
        v.pop();
        assert(v@ =~= before.drop_last());
    }
}

/// The file-name slug of a title (see [`slug_of`]): its transliteration,
/// made into a slug by [`slug_from_ascii`].
pub fn slugify(s: &str) -> (r: String)
    ensures
        r@ == slug_of(s@),
        r@.len() > 0,
        r@.len() <= 80,
        forall|i: int| 0 <= i < r@.len() ==> slug_char(#[trigger] r@[i]),
        r@[0] != '-',
        r@.last() != '-',
        forall|i: int| 0 <= i < r@.len() - 1 ==> !(#[trigger] r@[i] == '-' && r@[i + 1] == '-'),
{
    let t = transliterate(s);
    slug_from_ascii(t.as_str())
}

/// The file-name slug of a transliterated text (see [`slug_of_text`]): only
/// lowercase ASCII letters, digits, `_` and `-`; never empty; never starting
/// or ending with `-` nor holding `--`; at most 80 characters.
pub fn slug_from_ascii(t: &str) -> (r: String)
    ensures
        r@ == slug_of_text(t@),
        r@.len() > 0,
        r@.len() <= 80,
        forall|i: int| 0 <= i < r@.len() ==> slug_char(#[trigger] r@[i]),
        r@[0] != '-',
        r@.last() != '-',
        forall|i: int| 0 <= i < r@.len() - 1 ==> !(#[trigger] r@[i] == '-' && r@[i + 1] == '-'),
{
    let tv = chars_of(t);
    let mut out: Vec<char> = Vec::new();
    let mut last_was_dash = false;
    let mut i: usize = 0;
    while i < tv.len()
        invariant
            i <= tv.len(),
            tv@ == t@,
            out@ == slug_scan(tv@.take(i as int)),
            last_was_dash == (out@.len() > 0 && out@.last() == '-'),
        decreases tv.len() - i,
    {
        let c = tv[i];
        proof {
            let tk = tv@.take(i + 1);
            assert(tk.drop_last() =~= tv@.take(i as int));
            assert(tk.last() == c);
        }
        if ('0' <= c && c <= '9') || ('a' <= c && c <= 'z') || ('A' <= c && c <= 'Z') {
            let lc = if 'A' <= c && c <= 'Z' {
                ((c as u32) + 32) as u8 as char
            } else {
                c
            };
            assert(lc == ascii_lower(c)) by {
                if 'A' <= c && c <= 'Z' {
                    assert(((c as u32) + 32) as u8 as char == ((c as u32) + 32) as char);
                }
            }
            out.push(lc);
            last_was_dash = false;
            proof {
                assert('0' <= lc <= '9' || 'a' <= lc <= 'z');
            }
        } else if c == '_' {
            out.push('_');
            last_was_dash = false;
        } else if !last_was_dash && out.len() > 0 {
            out.push('-');
            last_was_dash = true;
        }
        i = i + 1;
    }
    assert(tv@.take(tv.len() as int) =~= tv@);
    proof {
        lemma_slug_scan_shape(tv@);
        lemma_trim_dashes(out@);
    }
    trim_dash_chars(&mut out);
    let ghost s1 = out@;
    if out.len() > MAX_SLUG_LEN {
        out.truncate(MAX_SLUG_LEN);
        proof {
            assert(out@ =~= s1.take(80));
            lemma_trim_dashes(out@);
        }
        trim_dash_chars(&mut out);
    }
    if out.len() == 0 {
        proof {
            reveal_strlit("task");
        }
        return String::from_str("task");
    }
    let ghost scan = slug_scan(t@);
    proof {
        lemma_trim_dashes(scan);
        lemma_trim_dashes(s1.take(80));
        assert forall|i: int| 0 <= i < out@.len() implies slug_char(#[trigger] out@[i]) && (i < out@.len() - 1 ==> !(
        out@[i] == '-' && out@[i + 1] == '-')) by {
            assert(out@[i] == scan[i]);
            if i < out@.len() - 1 {
                assert(out@[i + 1] == scan[i + 1]);
            }
        }
        assert(out@[0] == scan[0]);
    }
    string_from_chars(&out)
}

} // verus!
