//! Operations on lists of strings: removing, adding without repeats, and
//! the sorted union that label lists use.
use crate::sorting::{same_elements, sort_by_less, sorted_by, strict_total_on};
use crate::text::{
    contains_str, lemma_seq_order_equal, lemma_seq_order_flip, lemma_seq_order_trans, order_strs, seq_lt, Order,
};
use vstd::prelude::*;

verus! {

/// The entries of `s` that are not in `rm`, in order.
pub open spec fn without_all(s: Seq<Seq<char>>, rm: Seq<Seq<char>>) -> Seq<Seq<char>> {
    s.filter(|x: Seq<char>| !rm.contains(x))
}

/// Keeps the entries of `v` that are not in `rm`, in order.
pub fn remove_strs(v: &Vec<String>, rm: &Vec<String>) -> (r: Vec<String>)
    ensures
        r.deep_view() == without_all(v.deep_view(), rm.deep_view()),
{
    let ghost pred = |x: Seq<char>| !rm.deep_view().contains(x);
    let mut r: Vec<String> = Vec::new();
    let mut i: usize = 0;
    while i < v.len()
        invariant
            i <= v.len(),
            pred == (|x: Seq<char>| !rm.deep_view().contains(x)),
            r.deep_view() == v.deep_view().take(i as int).filter(pred),
        decreases v.len() - i,
    {
        let keep = !contains_str(rm, v[i].as_str());
        proof {
            let t = v.deep_view().take(i + 1);
            assert(t.drop_last() =~= v.deep_view().take(i as int));
            assert(t.last() == v@[i as int]@);
            reveal(Seq::filter);
        }
        if keep {
            let c = v[i].clone();
            let ghost before = r.deep_view();
            r.push(c);
            assert(r.deep_view() =~= before.push(v@[i as int]@));
        }
        i = i + 1;
    }
    assert(v.deep_view().take(v.len() as int) =~= v.deep_view());
    r
}

/// Appends `x` unless an equal string is already there.
pub fn push_unique(v: &mut Vec<String>, x: String)
    ensures
        old(v).deep_view().contains(x@) ==> final(v).deep_view() == old(v).deep_view(),
        !old(v).deep_view().contains(x@) ==> final(v).deep_view() == old(v).deep_view().push(x@),
{
    if !contains_str(v, x.as_str()) {
        let ghost before = v.deep_view();
        v.push(x);
        assert(v.deep_view() =~= before.push(x@));
    }
}

/// Entries strictly increase in string order (so none repeats).
pub open spec fn strictly_sorted(s: Seq<Seq<char>>) -> bool {
    forall|i: int, j: int| 0 <= i < j < s.len() ==> seq_lt(#[trigger] s[i], #[trigger] s[j])
}

/// The strings of `a` and `b` together, each once, in increasing order.
pub fn sorted_union(a: &Vec<String>, b: &Vec<String>) -> (r: Vec<String>)
    ensures
        strictly_sorted(r.deep_view()),
        forall|x: Seq<char>| #[trigger] r.deep_view().contains(x) <==> (a.deep_view().contains(x) || b.deep_view().contains(x)),
{
    let mut u: Vec<String> = Vec::new();
    let mut i: usize = 0;
    while i < a.len()
        invariant
            i <= a.len(),
            u.deep_view().no_duplicates(),
            forall|x: Seq<char>| #[trigger] u.deep_view().contains(x) <==> a.deep_view().take(i as int).contains(x),
        decreases a.len() - i,
    {
        let ghost before = u.deep_view();
        let c = a[i].clone();
        push_unique(&mut u, c);
        proof {
            assert(a.deep_view().take(i + 1) =~= a.deep_view().take(i as int).push(a@[i as int]@));
            assert forall|x: Seq<char>| #[trigger] u.deep_view().contains(x) <==> a.deep_view().take(i + 1).contains(x) by {
                crate::sorting::lemma_push_contains(a.deep_view().take(i as int), a@[i as int]@, x);
                crate::sorting::lemma_push_contains(before, a@[i as int]@, x);
            }
        }
        i = i + 1;
    }
    assert(a.deep_view().take(a.len() as int) =~= a.deep_view());
    assert(b.deep_view().take(0) =~= Seq::<Seq<char>>::empty());
    let mut j: usize = 0;
    while j < b.len()
        invariant
            j <= b.len(),
            u.deep_view().no_duplicates(),
            forall|x: Seq<char>| #[trigger] u.deep_view().contains(x) <==> (a.deep_view().contains(x) || b.deep_view().take(j as int).contains(x)),
        decreases b.len() - j,
    {
        let ghost before = u.deep_view();
        let c = b[j].clone();
        push_unique(&mut u, c);
        proof {
            assert(b.deep_view().take(j + 1) =~= b.deep_view().take(j as int).push(b@[j as int]@));
            assert forall|x: Seq<char>| #[trigger] u.deep_view().contains(x) <==> (a.deep_view().contains(x) || b.deep_view().take(j + 1).contains(x)) by {
                crate::sorting::lemma_push_contains(b.deep_view().take(j as int), b@[j as int]@, x);
                crate::sorting::lemma_push_contains(before, b@[j as int]@, x);
            }
        }
        j = j + 1;
    }
    assert(b.deep_view().take(b.len() as int) =~= b.deep_view());
    let ghost uv = u.deep_view();
    let mut idx: Vec<usize> = Vec::new();
    let mut k: usize = 0;
    while k < u.len()
        invariant
            k <= u.len(),
            idx.len() == k,
            forall|x: int| 0 <= x < k ==> idx@[x] == x,
        decreases u.len() - k,
    {
        idx.push(k);
        k = k + 1;
    }
    let ghost lt = |x: usize, y: usize| seq_lt(uv[x as int], uv[y as int]);
    proof {
        assert forall|x: usize| #[trigger] idx@.contains(x) implies x < u.len() by {
            let w = choose|w: int| 0 <= w < idx.len() && idx@[w] == x;
        }
        assert(idx@.no_duplicates());
        assert forall|x: usize| #[trigger] idx@.contains(x) implies !lt(x, x) by {
            lemma_seq_order_equal(uv[x as int], uv[x as int]);
        }
        assert forall|x: usize, y: usize| idx@.contains(x) && idx@.contains(y) && x != y implies #[trigger] lt(x, y)
            || #[trigger] lt(y, x) by {
            lemma_seq_order_equal(uv[x as int], uv[y as int]);
            lemma_seq_order_flip(uv[x as int], uv[y as int]);
        }
        assert forall|x: usize, y: usize, z: usize|
            idx@.contains(x) && idx@.contains(y) && idx@.contains(z) && #[trigger] lt(x, y) && #[trigger] lt(y, z) implies lt(
            x,
            z,
        ) by {
            lemma_seq_order_trans(uv[x as int], uv[y as int], uv[z as int]);
        }
    }
    let uu = &u;
    let less = |x: usize, y: usize| -> (o: bool)
        requires
            x < uu.len(),
            y < uu.len(),
        ensures
            o == seq_lt(uu.deep_view()[x as int], uu.deep_view()[y as int]),
        { order_strs(uu[x].as_str(), uu[y].as_str()) == Order::Less };
    proof {
        assert forall|x: usize, y: usize| idx@.contains(x) && idx@.contains(y) implies #[trigger] less.requires((x, y)) by {}
    }
    let sorted = sort_by_less(&idx, &less, Ghost(lt));
    let mut r: Vec<String> = Vec::new();
    let mut m: usize = 0;
    while m < sorted.len()
        invariant
            m <= sorted.len(),
            same_elements(sorted@, idx@),
            forall|x: usize| #[trigger] idx@.contains(x) ==> x < u.len(),
            uv == u.deep_view(),
            r.len() == m,
            forall|x: int| 0 <= x < m ==> r.deep_view()[x] == uv[#[trigger] sorted@[x] as int],
        decreases sorted.len() - m,
    {
        assert(sorted@.contains(sorted@[m as int]));
        let c = u[sorted[m]].clone();
        r.push(c);
        m = m + 1;
    }
    proof {
        assert forall|x: int, y: int| 0 <= x < y < r.len() implies seq_lt(#[trigger] r.deep_view()[x], #[trigger] r.deep_view()[y]) by {
            assert(lt(sorted@[x], sorted@[y]));
        }
        assert forall|x: Seq<char>| #[trigger] r.deep_view().contains(x) <==> uv.contains(x) by {
            if r.deep_view().contains(x) {
                let w = choose|w: int| 0 <= w < r.len() && r.deep_view()[w] == x;
                assert(sorted@.contains(sorted@[w]));
                assert(uv[sorted@[w] as int] == x);
            }
            if uv.contains(x) {
                let w = choose|w: int| 0 <= w < uv.len() && uv[w] == x;
                assert(idx@[w] == w as usize);
                assert(idx@.contains(w as usize));
                assert(sorted@.contains(w as usize));
                let q = choose|q: int| 0 <= q < sorted.len() && sorted@[q] == w as usize;
                assert(r.deep_view()[q] == x);
            }
        }
    }
    r
}


/// `cur` with each entry of `add` appended in turn unless already there.
pub open spec fn add_unique(cur: Seq<Seq<char>>, add: Seq<Seq<char>>) -> Seq<Seq<char>>
    decreases add.len(),
{
    if add.len() == 0 {
        cur
    } else {
        let r = add_unique(cur, add.drop_last());
        if r.contains(add.last()) {
            r
        } else {
            r.push(add.last())
        }
    }
}

/// Appends each string of `add` in turn unless an equal one is already there.
pub fn push_all_unique(v: &mut Vec<String>, add: Vec<String>)
    ensures
        final(v).deep_view() == add_unique(old(v).deep_view(), add.deep_view()),
{
    let ghost start = v.deep_view();
    let mut i: usize = 0;
    while i < add.len()
        invariant
            i <= add.len(),
            v.deep_view() == add_unique(start, add.deep_view().take(i as int)),
        decreases add.len() - i,
    {
        proof {
            let t = add.deep_view().take(i + 1);
            assert(t.drop_last() =~= add.deep_view().take(i as int));
            assert(t.last() == add@[i as int]@);
        }
        push_unique(v, add[i].clone());
        i = i + 1;
    }
    assert(add.deep_view().take(add.len() as int) =~= add.deep_view());
}

/// The strings joined with `sep` between them.
pub open spec fn joined(parts: Seq<Seq<char>>, sep: Seq<char>) -> Seq<char>
    decreases parts.len(),
{
    if parts.len() == 0 {
        Seq::empty()
    } else if parts.len() == 1 {
        parts[0]
    } else {
        joined(parts.drop_last(), sep) + sep + parts.last()
    }
}

/// Joins strings with `sep` between them.
pub fn join_strs(parts: &Vec<String>, sep: &str) -> (r: String)
    ensures
        r@ == joined(parts.deep_view(), sep@),
{
    let mut r = String::new();
    let mut i: usize = 0;
    while i < parts.len()
        invariant
            i <= parts.len(),
            r@ == joined(parts.deep_view().take(i as int), sep@),
        decreases parts.len() - i,
    {
        proof {
            let t = parts.deep_view().take(i + 1);
            assert(t.drop_last() =~= parts.deep_view().take(i as int));
            assert(t.last() == parts@[i as int]@);
        }
        if i > 0 {
            r.append(sep);
        } else {
            assert(parts.deep_view().take(0) =~= Seq::<Seq<char>>::empty());
            assert(Seq::<char>::empty() + parts@[0]@ =~= parts@[0]@);
        }
        r.append(parts[i].as_str());
        i = i + 1;
    }
    assert(parts.deep_view().take(parts.len() as int) =~= parts.deep_view());
    r
}

/// Two strictly sorted lists with the same strings are the same list.
pub proof fn lemma_sorted_unique(a: Seq<Seq<char>>, b: Seq<Seq<char>>)
    requires
        strictly_sorted(a),
        strictly_sorted(b),
        forall|x: Seq<char>| a.contains(x) <==> b.contains(x),
    ensures
        a == b,
    decreases a.len(),
{
    if a.len() == 0 {
        if b.len() > 0 {
            assert(b.contains(b[0]));
        }
        assert(a =~= b);
    } else {
        assert(a.contains(a[0]));
        assert(b.len() > 0);
        assert(b.contains(b[0]));
        let j = choose|j: int| 0 <= j < b.len() && b[j] == a[0];
        let i = choose|i: int| 0 <= i < a.len() && a[i] == b[0];
        lemma_seq_order_equal(a[0], a[0]);
        lemma_seq_order_equal(b[0], b[0]);
        if j > 0 {
            assert(seq_lt(b[0], b[j]));
            if i > 0 {
                assert(seq_lt(a[0], a[i]));
                lemma_seq_order_trans(a[0], b[0], a[0]);
            }
        }
        assert(a[0] == b[0]);
        let a2 = a.drop_first();
        let b2 = b.drop_first();
        assert forall|x: Seq<char>| a2.contains(x) <==> b2.contains(x) by {
            if a2.contains(x) {
                let k = choose|k: int| 0 <= k < a2.len() && a2[k] == x;
                assert(seq_lt(a[0], a[k + 1]));
                assert(x != a[0]);
                assert(a.contains(x));
                let m = choose|m: int| 0 <= m < b.len() && b[m] == x;
                assert(m != 0);
                assert(b2[m - 1] == x);
            }
            if b2.contains(x) {
                let k = choose|k: int| 0 <= k < b2.len() && b2[k] == x;
                assert(seq_lt(b[0], b[k + 1]));
                assert(x != b[0]);
                assert(b.contains(x));
                let m = choose|m: int| 0 <= m < a.len() && a[m] == x;
                assert(m != 0);
                assert(a2[m - 1] == x);
            }
        }
        assert(strictly_sorted(a2)) by {
            assert forall|x: int, y: int| 0 <= x < y < a2.len() implies seq_lt(#[trigger] a2[x], #[trigger] a2[y]) by {
                assert(a2[x] == a[x + 1] && a2[y] == a[y + 1]);
            }
        }
        assert(strictly_sorted(b2)) by {
            assert forall|x: int, y: int| 0 <= x < y < b2.len() implies seq_lt(#[trigger] b2[x], #[trigger] b2[y]) by {
                assert(b2[x] == b[x + 1] && b2[y] == b[y + 1]);
            }
        }
        lemma_sorted_unique(a2, b2);
        assert(a =~= b) by {
            assert forall|k: int| 0 <= k < a.len() implies a[k] == b[k] by {
                if k > 0 {
                    assert(a[k] == a2[k - 1] && b[k] == b2[k - 1]);
                }
            }
        }
    }
}
} // verus!
