//! Sorting a list of distinct indices by a strict total order given as a
//! comparison function.
use vstd::prelude::*;

verus! {

/// `lt` is a strict total order on the elements of `xs`: irreflexive,
/// transitive, and any two different elements are comparable.
pub open spec fn strict_total_on(lt: spec_fn(usize, usize) -> bool, xs: Seq<usize>) -> bool {
    &&& forall|a: usize| #[trigger] xs.contains(a) ==> !lt(a, a)
    &&& forall|a: usize, b: usize|
        xs.contains(a) && xs.contains(b) && a != b ==> #[trigger] lt(a, b) || #[trigger] lt(b, a)
    &&& forall|a: usize, b: usize, c: usize|
        xs.contains(a) && xs.contains(b) && xs.contains(c) && #[trigger] lt(a, b) && #[trigger] lt(b, c)
            ==> lt(a, c)
}

/// Every element sorts strictly before every later one.
pub open spec fn sorted_by(lt: spec_fn(usize, usize) -> bool, s: Seq<usize>) -> bool {
    forall|i: int, j: int| 0 <= i < j < s.len() ==> lt(#[trigger] s[i], #[trigger] s[j])
}

/// `r` holds exactly the elements of `xs`, each once.
pub open spec fn same_elements(r: Seq<usize>, xs: Seq<usize>) -> bool {
    &&& r.len() == xs.len()
    &&& r.no_duplicates()
    &&& forall|x: usize| #[trigger] r.contains(x) <==> xs.contains(x)
}

/// The positions `0..n`, in order.
pub open spec fn positions(n: nat) -> Seq<usize> {
    Seq::new(n, |i: int| i as usize)
}

/// Sorts distinct elements by the strict order that `less` decides.
pub fn sort_by_less<F: Fn(usize, usize) -> bool>(
    xs: &Vec<usize>,
    less: &F,
    Ghost(lt): Ghost<spec_fn(usize, usize) -> bool>,
) -> (r: Vec<usize>)
    requires
        xs@.no_duplicates(),
        strict_total_on(lt, xs@),
        forall|a: usize, b: usize| xs@.contains(a) && xs@.contains(b) ==> #[trigger] less.requires((a, b)),
        forall|a: usize, b: usize, o: bool|
            xs@.contains(a) && xs@.contains(b) && #[trigger] less.ensures((a, b), o) ==> o == lt(a, b),
    ensures
        same_elements(r@, xs@),
        sorted_by(lt, r@),
{
    let mut r: Vec<usize> = Vec::new();
    let mut i: usize = 0;
    while i < xs.len()
        invariant
            i <= xs.len(),
            xs@.no_duplicates(),
            strict_total_on(lt, xs@),
            forall|a: usize, b: usize| xs@.contains(a) && xs@.contains(b) ==> #[trigger] less.requires((a, b)),
            forall|a: usize, b: usize, o: bool|
                xs@.contains(a) && xs@.contains(b) && #[trigger] less.ensures((a, b), o) ==> o == lt(a, b),
            r.len() == i,
            r@.no_duplicates(),
            forall|x: usize| #[trigger] r@.contains(x) <==> xs@.take(i as int).contains(x),
            sorted_by(lt, r@),
        decreases xs.len() - i,
    {
        let x = xs[i];
        assert(xs@.contains(x));
        assert(!r@.contains(x)) by {
            if r@.contains(x) {
                let k = choose|k: int| 0 <= k < i && xs@.take(i as int)[k] == x;
                assert(xs@[k] == xs@[i as int]);
            }
        }
        let mut p: usize = 0;
        while p < r.len()
            invariant
                p <= r.len(),
                xs@.contains(x),
                forall|y: usize| #[trigger] r@.contains(y) ==> xs@.contains(y),
                forall|a: usize, b: usize| xs@.contains(a) && xs@.contains(b) ==> #[trigger] less.requires((a, b)),
                forall|a: usize, b: usize, o: bool|
                    xs@.contains(a) && xs@.contains(b) && #[trigger] less.ensures((a, b), o) ==> o == lt(a, b),
                forall|k: int| 0 <= k < p ==> lt(#[trigger] r@[k], x),
            ensures
                p <= r.len(),
                forall|k: int| 0 <= k < p ==> lt(#[trigger] r@[k], x),
                p < r.len() ==> !lt(r@[p as int], x),
            decreases r.len() - p,
        {
            let y = r[p];
            assert(r@.contains(y));
            if !less(y, x) {
                break;
            }
            p = p + 1;
        }
        let ghost old_r = r@;
        proof {
            if p < old_r.len() {
                let y = old_r[p as int];
                assert(old_r.contains(y));
                assert(!lt(y, x));
                assert(y != x);
                assert(lt(x, y));
            }
        }
        r.insert(p, x);
        proof {
            assert(r@ =~= old_r.insert(p as int, x));
            assert forall|a: int, b: int| 0 <= a < b < r@.len() implies lt(#[trigger] r@[a], #[trigger] r@[b]) by {
                if b < p {
                    assert(r@[a] == old_r[a] && r@[b] == old_r[b]);
                } else if a < p && b == p {
                } else if a < p && b > p {
                    assert(r@[a] == old_r[a] && r@[b] == old_r[b - 1]);
                } else if a == p {
                    assert(r@[b] == old_r[b - 1]);
                    if b - 1 > p {
                        let y = old_r[p as int];
                        assert(old_r.contains(y));
                        assert(old_r.contains(old_r[b - 1]));
                        assert(lt(y, old_r[b - 1]));
                    }
                } else {
                    assert(r@[a] == old_r[a - 1]);
                    assert(r@[b] == old_r[b - 1]);
                    assert(lt(old_r[a - 1], old_r[b - 1]));
                }
            }
            assert forall|y: usize| #[trigger] r@.contains(y) <==> xs@.take(i + 1).contains(y) by {
                assert(xs@.take(i + 1) =~= xs@.take(i as int).push(x));
                if r@.contains(y) {
                    let k = choose|k: int| 0 <= k < r@.len() && r@[k] == y;
                    if k < p {
                        assert(old_r[k] == y);
                    } else if k > p {
                        assert(old_r[k - 1] == y);
                    }
                }
                if old_r.contains(y) {
                    let k = choose|k: int| 0 <= k < old_r.len() && old_r[k] == y;
                    if k < p {
                        assert(r@[k] == y);
                    } else {
                        assert(r@[k + 1] == y);
                    }
                }
                assert(r@[p as int] == x);
                if xs@.take(i + 1).contains(y) {
                    let k = choose|k: int| 0 <= k < i + 1 && #[trigger] xs@.take(i + 1)[k] == y;
                    if k < i {
                        assert(xs@.take(i as int)[k] == y);
                        assert(xs@.take(i as int).contains(y));
                        assert(old_r.contains(y));
                    }
                }
                if old_r.contains(y) {
                    assert(xs@.take(i as int).contains(y));
                    let k = choose|k: int| 0 <= k < i && #[trigger] xs@.take(i as int)[k] == y;
                    assert(xs@.take(i + 1)[k] == y);
                }
                if y == x {
                    assert(xs@.take(i + 1)[i as int] == y);
                }
            }
            assert(r@.no_duplicates()) by {
                assert forall|a: int, b: int| 0 <= a < b < r@.len() implies r@[a] != r@[b] by {
                    assert(lt(r@[a], r@[b]));
                    assert(r@.contains(r@[a]));
                    assert(xs@.take(i + 1).contains(r@[a]));
                    let k = choose|k: int| 0 <= k < i + 1 && #[trigger] xs@.take(i + 1)[k] == r@[a];
                    assert(xs@[k] == r@[a]);
                    assert(xs@.contains(r@[a]));
                }
            }
        }
        i = i + 1;
    }
    assert(xs@.take(xs.len() as int) =~= xs@);
    r
}


/// An element is in a sequence with one more element pushed exactly when it
/// is that element or was there before.
pub proof fn lemma_push_contains<A>(s: Seq<A>, x: A, y: A)
    ensures
        s.push(x).contains(y) <==> (s.contains(y) || y == x),
{
    if s.push(x).contains(y) {
        let k = choose|k: int| 0 <= k < s.push(x).len() && s.push(x)[k] == y;
        if k < s.len() {
            assert(s[k] == y);
        }
    }
    if s.contains(y) {
        let k = choose|k: int| 0 <= k < s.len() && s[k] == y;
        assert(s.push(x)[k] == y);
    }
    if y == x {
        assert(s.push(x)[s.len() as int] == y);
    }
}
} // verus!
