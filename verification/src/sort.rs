//! Index sorting by integer keys, dispatched to a parallel sort.
//!
//! The heavy passes of the partitioners all start by ordering the points
//! along an axis or a space-filling curve.  That order is represented as a
//! permutation of the point indices, sorted by a `u64` key with ties broken
//! by the original index, so the order is total and deterministic.

use vstd::prelude::*;
use vstd::seq_lib::group_to_multiset_ensures;
use rayon::slice::ParallelSliceMut;

verus! {

/// The lexicographic order on key/index pairs, as std derives it for tuples.
pub open spec fn pair_le(a: (u64, usize), b: (u64, usize)) -> bool {
    a.0 < b.0 || (a.0 == b.0 && a.1 <= b.1)
}

/// The sequence is sorted under [`pair_le`].
pub open spec fn sorted_pairs(s: Seq<(u64, usize)>) -> bool {
    forall|i: int, j: int| 0 <= i < j < s.len() ==> pair_le(#[trigger] s[i], #[trigger] s[j])
}

/// `perm` rearranges the indices `0 .. n`.
pub open spec fn is_permutation(perm: Seq<usize>, n: nat) -> bool {
    &&& perm.len() == n
    &&& forall|i: int| 0 <= i < perm.len() ==> (#[trigger] perm[i]) < n
    &&& perm.no_duplicates()
}

/// `perm` orders the indices `0 .. keys.len()` by key, ascending, with ties
/// broken by the index itself.
pub open spec fn sorts_by_key(perm: Seq<usize>, keys: Seq<u64>) -> bool {
    &&& is_permutation(perm, keys.len())
    &&& forall|i: int, j: int|
        0 <= i < j < perm.len() ==> pair_le(
            (keys[#[trigger] perm[i] as int], perm[i]),
            (keys[#[trigger] perm[j] as int], perm[j]),
        )
}

/// Relies on rayon's `par_sort`: sorts the pairs by the order std derives
/// for `(u64, usize)` tuples (lexicographic); the result holds exactly the
/// elements of the input, sorting being a rearrangement.
#[verifier::external_body]
fn par_sort_pairs(v: &mut Vec<(u64, usize)>)
    ensures
        sorted_pairs(final(v)@),
        final(v)@.to_multiset() == old(v)@.to_multiset(),
{
    v.par_sort();
}

/// The permutation of `0 .. keys.len()` that orders the indices by their
/// key, ascending, ties broken by index.
pub fn sort_indices_by_key(keys: &Vec<u64>) -> (perm: Vec<usize>)
    ensures
        sorts_by_key(perm@, keys@),
        forall|v: usize| (v as int) < keys@.len() ==> perm@.contains(v),
{
    let n = keys.len();
    let mut pairs: Vec<(u64, usize)> = Vec::new();
    let mut i: usize = 0;
    while i < n
        invariant
            0 <= i <= n,
            n == keys@.len(),
            pairs@.len() == i,
            forall|j: int| 0 <= j < i ==> #[trigger] pairs@[j] == (keys@[j], j as usize),
        decreases n - i,
    {
        pairs.push((keys[i], i));
        i = i + 1;
    }
    let ghost orig = pairs@;
    par_sort_pairs(&mut pairs);
    proof {
        broadcast use group_to_multiset_ensures;

        assert(orig.no_duplicates()) by {
            assert forall|a: int, b: int|
                0 <= a < orig.len() && 0 <= b < orig.len() && a != b implies orig[a]
                != orig[b] by {
                assert(orig[a].1 == a && orig[b].1 == b);
            }
        }
        orig.lemma_multiset_has_no_duplicates();
        assert forall|x: (u64, usize)| pairs@.to_multiset().contains(x) implies pairs@.to_multiset().count(x)
            == 1 by {
            assert(orig.to_multiset().contains(x));
        }
        pairs@.lemma_multiset_has_no_duplicates_conv();
        assert(pairs@.to_multiset().len() == orig.to_multiset().len());
        assert(pairs@.len() == n);
        // Every sorted pair is one of the original pairs.
        assert forall|j: int| 0 <= j < pairs@.len() implies {
            &&& (#[trigger] pairs@[j]).1 < n
            &&& pairs@[j].0 == keys@[pairs@[j].1 as int]
        } by {
            assert(pairs@.to_multiset().count(pairs@[j]) > 0);
            assert(orig.to_multiset().count(pairs@[j]) > 0);
            assert(orig.contains(pairs@[j]));
            let k = choose|k: int| 0 <= k < orig.len() && orig[k] == pairs@[j];
            assert(orig[k] == (keys@[k], k as usize));
        }
    }
    let mut perm: Vec<usize> = Vec::new();
    let mut i: usize = 0;
    while i < n
        invariant
            0 <= i <= n,
            n == keys@.len(),
            pairs@.len() == n,
            perm@.len() == i,
            sorted_pairs(pairs@),
            pairs@.no_duplicates(),
            forall|j: int|
                0 <= j < n ==> (#[trigger] pairs@[j]).1 < n
                    && pairs@[j].0 == keys@[pairs@[j].1 as int],
            forall|j: int| 0 <= j < i ==> #[trigger] perm@[j] == pairs@[j].1,
        decreases n - i,
    {
        let p = pairs[i];
        perm.push(p.1);
        i = i + 1;
    }
    proof {
        assert(perm@.no_duplicates()) by {
            assert forall|a: int, b: int|
                0 <= a < perm@.len() && 0 <= b < perm@.len() && a != b implies perm@[a]
                != perm@[b] by {
                if perm@[a] == perm@[b] {
                    assert(pairs@[a].0 == keys@[pairs@[a].1 as int]);
                    assert(pairs@[b].0 == keys@[pairs@[b].1 as int]);
                    assert(pairs@[a] == pairs@[b]);
                }
            }
        }
        assert forall|a: int, b: int| 0 <= a < b < perm@.len() implies pair_le(
            (keys@[#[trigger] perm@[a] as int], perm@[a]),
            (keys@[#[trigger] perm@[b] as int], perm@[b]),
        ) by {
            assert(pair_le(pairs@[a], pairs@[b]));
        }
        // Every index appears: sorting loses none of the original pairs.
        assert forall|v: usize| (v as int) < keys@.len() implies perm@.contains(v) by {
            broadcast use group_to_multiset_ensures;

            assert(orig[v as int] == (keys@[v as int], v));
            assert(orig.contains((keys@[v as int], v)));
            assert(pairs@.to_multiset().count((keys@[v as int], v)) > 0);
            assert(pairs@.contains((keys@[v as int], v)));
            let j = choose|j: int| 0 <= j < pairs@.len() && pairs@[j] == (keys@[v as int], v);
            assert(perm@[j] == v);
        }
    }
    perm
}

/// A total, order-preserving map from a signed coordinate to a `u64` sort
/// key: `a <= b` exactly when `coord_key(a) <= coord_key(b)`.
pub fn coord_key(c: i64) -> (k: u64)
    ensures
        k == c + 0x8000_0000_0000_0000u128,
{
    ((c as i128) + 0x8000_0000_0000_0000i128) as u64
}

} // verus!
