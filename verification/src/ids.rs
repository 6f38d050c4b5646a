//! Task IDs: the length of the random part, and drawing an ID that is not
//! taken yet.
use crate::text::contains_str;
use vstd::arithmetic::power::{lemma_pow_increases, pow};
use vstd::prelude::*;
use vstd::string::StringExecFns;

verus! {

/// How many draws are made at each suffix length before it grows.
pub const MAX_ATTEMPTS_PER_LENGTH: usize = 1000;

/// The characters an ID suffix is drawn from: digits and lowercase letters.
pub const ID_ALPHABET: [char; 36] = [
    '0', '1', '2', '3', '4', '5', '6', '7', '8', '9', 'a', 'b', 'c', 'd', 'e', 'f', 'g', 'h', 'i',
    'j', 'k', 'l', 'm', 'n', 'o', 'p', 'q', 'r', 's', 't', 'u', 'v', 'w', 'x', 'y', 'z',
];

/// A character of the ID alphabet.
pub open spec fn is_id_char(c: char) -> bool {
    ('0' <= c && c <= '9') || ('a' <= c && c <= 'z')
}

/// A character that takes one byte in UTF-8.
pub open spec fn is_ascii_char(c: char) -> bool {
    (c as u32) < 128
}

/// Draws a random suffix of `size` characters from `alphabet` with
/// `nanoid::format` and the crate's default random source. Only its length
/// and that its characters come from the alphabet are stated: which
/// characters come out is random. `nanoid::format` asserts that the alphabet
/// has at most 255 characters, never returns for an empty alphabet or a size
/// of 0, and counts the length in bytes, which is the number of characters
/// for an ASCII alphabet.
#[verifier::external_body]
pub(crate) fn random_id_suffix(alphabet: &[char], size: usize) -> (r: String)
    requires
        size > 0,
        1 <= alphabet@.len() <= 255,
        forall|i: int| 0 <= i < alphabet@.len() ==> is_ascii_char(#[trigger] alphabet@[i]),
    ensures
        r@.len() == size,
        forall|i: int| 0 <= i < r@.len() ==> alphabet@.contains(#[trigger] r@[i]),
{
    nanoid::format(nanoid::rngs::default, alphabet, size)
}

/// Draws a random suffix of `size` characters from [`ID_ALPHABET`].
pub(crate) fn draw_id_suffix(size: usize) -> (r: String)
    requires
        size > 0,
    ensures
        r@.len() == size,
        forall|i: int| 0 <= i < r@.len() ==> is_id_char(#[trigger] r@[i]),
{
    let alphabet: &[char] = &ID_ALPHABET;
    assert(alphabet@.len() == 36);
    assert forall|i: int| 0 <= i < alphabet@.len() implies is_id_char(#[trigger] alphabet@[i]) && is_ascii_char(
        alphabet@[i],
    ) by {
        assert(alphabet@[i] == ID_ALPHABET@[i]);
    }
    let r = random_id_suffix(alphabet, size);
    assert forall|i: int| 0 <= i < r@.len() implies is_id_char(#[trigger] r@[i]) by {
        assert(alphabet@.contains(r@[i]));
        let j = choose|j: int| 0 <= j < alphabet@.len() && alphabet@[j] == r@[i];
        assert(is_id_char(alphabet@[j]));
    }
    r
}

/// A random suffix of `l` characters keeps the chance of any collision among
/// `n` IDs at or below one in 10^12: `36^l >= n^2 / (2 * 10^-12)`.
pub open spec fn id_length_enough(n: nat, l: nat) -> bool {
    pow(36, l) >= 500000000000 * (n * n)
}

/// One more factor: `b^(e+1) = b * b^e`.
pub proof fn lemma_pow_step(b: int, e: nat)
    ensures
        pow(b, e + 1) == b * pow(b, e),
{
    reveal(pow);
    assert(((e + 1) as nat - 1) as nat == e);
}

/// The suffix length for a project with `n` tasks: the shortest length, and
/// at least 8, that keeps collisions below one in 10^12.
pub fn required_random_id_length(n: usize) -> (l: usize)
    ensures
        l >= 8,
        n == 0 ==> l == 8,
        n > 0 ==> id_length_enough(n as nat, l as nat),
        n > 0 && l > 8 ==> !id_length_enough(n as nat, (l - 1) as nat),
{
    if n == 0 {
        return 8;
    }
    let c: u128 = 500000000000;
    assert((n as int) * (n as int) <= u128::MAX) by (nonlinear_arith)
        requires
            n <= usize::MAX,
            usize::MAX <= u64::MAX,
    ;
    let x: u128 = (n as u128) * (n as u128);
    let mut l: usize = 8;
    let mut q: u128 = 5;
    let mut rem: u128 = 321109907456;
    proof {
        reveal(pow);
        reveal_with_fuel(pow, 26);
        assert(pow(36, 8) == 2821109907456);
        assert(pow(36, 0) == 1);
        assert(pow(36, 25) > u128::MAX);
    }
    loop
        invariant_except_break
            q * c + rem == pow(36, l as nat),
            q >= pow(36, (l - 8) as nat),
        invariant
            c == 500000000000,
            x == (n as int) * (n as int),
            8 <= l,
            rem < c,
            q >= 1,
            pow(36, 25) > u128::MAX,
            l > 8 ==> !id_length_enough(n as nat, (l - 1) as nat),
        ensures
            8 <= l,
            id_length_enough(n as nat, l as nat),
            l > 8 ==> !id_length_enough(n as nat, (l - 1) as nat),
        decreases u128::MAX - q,
    {
        if q >= x {
            assert(q * c >= x * c) by (nonlinear_arith)
                requires
                    q >= x,
                    c > 0,
            ;
            break;
        }
        assert(q * c + rem < x * c) by (nonlinear_arith)
            requires
                q < x,
                rem < c,
        ;
        assert(!id_length_enough(n as nat, l as nat));
        proof {
            if l - 8 >= 25 {
                lemma_pow_increases(36, 25, (l - 8) as nat);
            }
        }
        assert(l < 33);
        let t = 36 * rem;
        let carry = t / c;
        let nrem = t % c;
        proof {
            lemma_pow_step(36, l as nat);
        }
        if q > (u128::MAX - carry) / 36 {
            assert(36 * q + carry > u128::MAX) by (nonlinear_arith)
                requires
                    q > (u128::MAX - carry) / 36,
                    carry <= u128::MAX,
            ;
            assert((36 * q + carry) * c + nrem == pow(36, (l + 1) as nat));
            assert((36 * q + carry) * c >= x * c) by (nonlinear_arith)
                requires
                    36 * q + carry > x,
                    c > 0,
            ;
            l = l + 1;
            break;
        }
        q = 36 * q + carry;
        rem = nrem;
        proof {
            lemma_pow_step(36, (l - 8) as nat);
            assert((l + 1 - 8) as nat == (l - 8) as nat + 1);
        }
        l = l + 1;
    }
    l
}

/// At suffix length `k`, the drawing function can give a suffix whose ID
/// `<prefix>-<suffix>` is already among `ids`.
pub open spec fn taken_at<F: Fn(usize) -> String>(f: F, prefix: Seq<char>, ids: Seq<Seq<char>>, k: usize) -> bool {
    exists|s: String| #[trigger] f.ensures((k,), s) && ids.contains(prefix + "-"@ + s@)
}

/// Draws IDs `<prefix>-<suffix>` until one is not among `existing_ids`:
/// up to 1000 draws at each suffix length, starting at `suffix_length` and
/// growing by one after each 1000 failed draws.
///
/// Returns `None` only when the length reaches `usize::MAX` without success:
/// at every length from `suffix_length` on, a draw gave a taken ID.
pub fn generate_unique_id_with<F: Fn(usize) -> String>(
    prefix: &str,
    existing_ids: &Vec<String>,
    suffix_length: usize,
    generate_suffix: F,
) -> (r: Option<String>)
    requires
        forall|k: usize| k >= suffix_length ==> #[trigger] generate_suffix.requires((k,)),
    ensures
        r matches Some(id) ==> !existing_ids.deep_view().contains(id@) && exists|len: usize, s: String|
            len >= suffix_length && #[trigger] generate_suffix.ensures((len,), s) && id@ == prefix@ + "-"@ + s@
                && forall|k: usize|
                suffix_length <= k < len ==> #[trigger] taken_at(generate_suffix, prefix@, existing_ids.deep_view(), k),
        r is None ==> forall|k: usize|
            suffix_length <= k ==> #[trigger] taken_at(generate_suffix, prefix@, existing_ids.deep_view(), k),
{
    let mut len = suffix_length;
    loop
        invariant
            len >= suffix_length,
            forall|k: usize| k >= suffix_length ==> #[trigger] generate_suffix.requires((k,)),
            forall|k: usize|
                suffix_length <= k < len ==> #[trigger] taken_at(generate_suffix, prefix@, existing_ids.deep_view(), k),
        decreases usize::MAX - len,
    {
        let mut attempt: usize = 0;
        while attempt < MAX_ATTEMPTS_PER_LENGTH
            invariant
                len >= suffix_length,
                forall|k: usize| k >= suffix_length ==> #[trigger] generate_suffix.requires((k,)),
                forall|k: usize|
                    suffix_length <= k < len ==> #[trigger] taken_at(generate_suffix, prefix@, existing_ids.deep_view(), k),
                attempt > 0 ==> taken_at(generate_suffix, prefix@, existing_ids.deep_view(), len),
            decreases MAX_ATTEMPTS_PER_LENGTH - attempt,
        {
            let suffix = generate_suffix(len);
            let mut id = String::from_str(prefix);
            id.append("-");
            id.append(suffix.as_str());
            if !contains_str(existing_ids, id.as_str()) {
                assert(generate_suffix.ensures((len,), suffix) && id@ == prefix@ + "-"@ + suffix@);
                return Some(id);
            }
            assert(taken_at(generate_suffix, prefix@, existing_ids.deep_view(), len));
            attempt = attempt + 1;
        }
        assert(taken_at(generate_suffix, prefix@, existing_ids.deep_view(), len));
        if len == usize::MAX {
            return None;
        }
        len = len + 1;
    }
}

/// Some ID among `ids` is `<prefix>-<t>` with a suffix `t` of `k` characters.
pub open spec fn length_taken(ids: Seq<Seq<char>>, prefix: Seq<char>, k: int) -> bool {
    exists|t: Seq<char>| t.len() == k && #[trigger] ids.contains(prefix + "-"@ + t)
}

/// A list of distinct strings that all occur in `b` is no longer than `b`.
proof fn lemma_distinct_within(a: Seq<Seq<char>>, b: Seq<Seq<char>>)
    requires
        a.no_duplicates(),
        forall|i: int| 0 <= i < a.len() ==> b.contains(#[trigger] a[i]),
    ensures
        a.len() <= b.len(),
{
    broadcast use vstd::seq_lib::seq_to_set_is_finite;

    a.unique_seq_to_set();
    b.lemma_cardinality_of_set();
    assert forall|x: Seq<char>| a.to_set().contains(x) implies b.to_set().contains(x) by {
        let i = choose|i: int| 0 <= i < a.len() && a[i] == x;
        assert(b.contains(a[i]));
    }
    vstd::set_lib::lemma_len_subset(a.to_set(), b.to_set());
}

/// Draws a fresh ID `<prefix>-<suffix>` with random suffixes from the ID
/// alphabet (see [`generate_unique_id_with`]). A suffix drawn at each length
/// has that length, so IDs drawn at different lengths differ: an ID is found
/// whenever fewer IDs exist than there are lengths from `suffix_length` up to
/// `usize::MAX`.
pub fn generate_unique_id(prefix: &str, existing_ids: &Vec<String>, suffix_length: usize) -> (r: Option<String>)
    requires
        suffix_length > 0,
    ensures
        r matches Some(id) ==> !existing_ids.deep_view().contains(id@) && exists|s: Seq<char>|
            id@ == prefix@ + "-"@ + s && s.len() >= suffix_length && (forall|i: int|
                0 <= i < s.len() ==> is_id_char(#[trigger] s[i])) && forall|k: int|
                suffix_length <= k < s.len() ==> #[trigger] length_taken(existing_ids.deep_view(), prefix@, k),
        existing_ids@.len() <= usize::MAX - suffix_length ==> r is Some,
        (forall|i: int|
            0 <= i < existing_ids@.len() ==> (#[trigger] existing_ids@[i])@.len() != prefix@.len() + 1 + suffix_length)
            ==> (r matches Some(id) && id@.len() == prefix@.len() + 1 + suffix_length),
{
    let gen = |len: usize| -> (s: String)
        requires
            len > 0,
        ensures
            s@.len() == len,
            forall|i: int| 0 <= i < s@.len() ==> is_id_char(#[trigger] s@[i]),
        { draw_id_suffix(len) };
    let r = generate_unique_id_with(prefix, existing_ids, suffix_length, gen);
    proof {
        let ids = existing_ids.deep_view();
        reveal_strlit("-");
        if r is Some {
            let (len, s) = choose|len: usize, s: String|
                len >= suffix_length && #[trigger] gen.ensures((len,), s) && r->Some_0@ == prefix@ + "-"@ + s@
                    && forall|k: usize| suffix_length <= k < len ==> #[trigger] taken_at(gen, prefix@, ids, k);
            assert(s@.len() >= suffix_length);
            assert forall|k: int| suffix_length <= k < s@.len() implies #[trigger] length_taken(ids, prefix@, k) by {
                assert(taken_at(gen, prefix@, ids, k as usize));
                let s2 = choose|s2: String| #[trigger] gen.ensures(((k as usize),), s2) && ids.contains(prefix@ + "-"@ + s2@);
                assert(s2@.len() == k);
            }
        }
        if forall|i: int|
            0 <= i < existing_ids@.len() ==> (#[trigger] existing_ids@[i])@.len() != prefix@.len() + 1 + suffix_length {
            if taken_at(gen, prefix@, ids, suffix_length) {
                let s2 = choose|s2: String| #[trigger] gen.ensures((suffix_length,), s2) && ids.contains(prefix@ + "-"@ + s2@);
                let i = choose|i: int| 0 <= i < ids.len() && ids[i] == prefix@ + "-"@ + s2@;
                assert(ids[i] == existing_ids@[i]@);
                assert(false);
            }
            assert(r is Some);
            let (len, s) = choose|len: usize, s: String|
                len >= suffix_length && #[trigger] gen.ensures((len,), s) && r->Some_0@ == prefix@ + "-"@ + s@
                    && forall|k: usize| suffix_length <= k < len ==> #[trigger] taken_at(gen, prefix@, ids, k);
            if len > suffix_length {
                assert(taken_at(gen, prefix@, ids, suffix_length));
            }
            assert(s@.len() == suffix_length);
        }
        if r is None && existing_ids@.len() <= usize::MAX - suffix_length {
            let n: int = usize::MAX - suffix_length + 1;
            let pick = |j: int|
                choose|s: String|
                    #[trigger] gen.ensures(((suffix_length + j) as usize,), s) && ids.contains(prefix@ + "-"@ + s@);
            let hits = Seq::new(n as nat, |j: int| prefix@ + "-"@ + pick(j)@);
            assert forall|j: int| 0 <= j < hits.len() implies ids.contains(#[trigger] hits[j]) && hits[j].len()
                == prefix@.len() + "-"@.len() + suffix_length + j by {
                let k = (suffix_length + j) as usize;
                assert(taken_at(gen, prefix@, ids, k));
            }
            assert forall|i: int, j: int| 0 <= i < hits.len() && 0 <= j < hits.len() && i != j implies #[trigger] hits[i]
                != #[trigger] hits[j] by {
                assert(hits[i].len() != hits[j].len());
            }
            lemma_distinct_within(hits, ids);
            assert(ids.len() == existing_ids@.len());
        }
    }
    r
}

} // verus!
