//! Weight-balanced splitting of an ordered sequence.
//!
//! Given per-element weights listed in the order the elements will be laid
//! out, the splitter returns the positions that cut the sequence into a
//! requested number of consecutive runs of approximately equal total
//! weight: the `j`-th cut is the smallest prefix whose cumulative weight
//! reaches `j / parts` of the total.

use vstd::prelude::*;

verus! {

/// Sum of the first `p` weights.
pub open spec fn csum(w: Seq<u64>, p: int) -> int
    decreases p,
{
    if p <= 0 {
        0
    } else {
        csum(w, p - 1) + w[p - 1]
    }
}

/// Sum of all weights.
pub open spec fn total(w: Seq<u64>) -> int {
    csum(w, w.len() as int)
}

/// `p` is the smallest prefix of `w` whose cumulative weight reaches
/// `j / parts` of the total.
pub open spec fn is_split_pos(w: Seq<u64>, parts: int, j: int, p: int) -> bool {
    &&& 0 <= p <= w.len()
    &&& csum(w, p) * parts >= total(w) * j
    &&& forall|q: int| 0 <= q < p ==> #[trigger] csum(w, q) * parts < total(w) * j
}

/// Cumulative weight never decreases.
pub proof fn lemma_csum_mono(w: Seq<u64>, p: int, q: int)
    requires
        p <= q,
    ensures
        csum(w, p) <= csum(w, q),
    decreases q - p,
{
    if p < q {
        lemma_csum_mono(w, p, q - 1);
        if q <= 0 {
        } else {
            assert(csum(w, q) == csum(w, q - 1) + w[q - 1]);
        }
    }
}

/// Cumulative weights are non-negative.
pub proof fn lemma_csum_nonneg(w: Seq<u64>, p: int)
    ensures
        0 <= csum(w, p),
    decreases p,
{
    if p > 0 {
        lemma_csum_nonneg(w, p - 1);
    }
}

/// Largest single weight the library accepts.
pub const WEIGHT_LIMIT: u64 = 0xFFFF_FFFF;

/// Largest number of points the library accepts.
pub const MAX_POINTS: usize = 0xFFFF_FFFF;

/// Every weight is on the accepted fixed-point grid.
pub open spec fn weights_in_range(w: Seq<u64>) -> bool {
    forall|i: int| 0 <= i < w.len() ==> #[trigger] w[i] <= WEIGHT_LIMIT
}

/// A prefix sum of in-range weights is bounded by its length.
pub proof fn lemma_csum_bounded(w: Seq<u64>, p: int)
    requires
        weights_in_range(w),
        0 <= p <= w.len(),
    ensures
        csum(w, p) <= p * (WEIGHT_LIMIT as int),
    decreases p,
{
    if p > 0 {
        lemma_csum_bounded(w, p - 1);
        assert((p - 1) * (WEIGHT_LIMIT as int) + (WEIGHT_LIMIT as int) == p * (WEIGHT_LIMIT as int))
            by (nonlinear_arith);
    }
}

/// The total of at most `MAX_POINTS` in-range weights fits in `u64`.
pub proof fn lemma_total_bounded(w: Seq<u64>)
    requires
        weights_in_range(w),
        w.len() <= MAX_POINTS,
    ensures
        0 <= total(w) <= u64::MAX,
{
    lemma_csum_nonneg(w, w.len() as int);
    lemma_csum_bounded(w, w.len() as int);
    assert((w.len() as int) * (WEIGHT_LIMIT as int) <= (MAX_POINTS as int) * (WEIGHT_LIMIT as int))
        by (nonlinear_arith)
        requires w.len() <= MAX_POINTS;
    assert((MAX_POINTS as int) * (WEIGHT_LIMIT as int) <= u64::MAX) by (nonlinear_arith);
}

/// Products of two values below `2^64` fit in `u128`.
proof fn lemma_u64_products_fit_u128(a: int, b: int)
    requires
        0 <= a < 0x1_0000_0000_0000_0000,
        0 <= b < 0x1_0000_0000_0000_0000,
    ensures
        0 <= a * b <= u128::MAX,
{
    assert(0 <= a * b < 0x1_0000_0000_0000_0000 * 0x1_0000_0000_0000_0000) by (nonlinear_arith)
        requires 0 <= a < 0x1_0000_0000_0000_0000 && 0 <= b < 0x1_0000_0000_0000_0000;
}

/// The split positions `p_1 <= ... <= p_{parts-1}` of the sequence of
/// weights, each the smallest prefix whose cumulative weight reaches its
/// threshold.
pub fn split_positions(weights: &Vec<u64>, parts: usize) -> (pos: Vec<usize>)
    requires
        1 <= parts,
        total(weights@) <= u64::MAX,
    ensures
        pos@.len() == parts - 1,
        forall|j: int|
            0 <= j < parts - 1 ==> is_split_pos(weights@, parts as int, j + 1, #[trigger] pos@[j] as int),
        forall|j: int| 0 <= j < parts - 2 ==> #[trigger] pos@[j] <= pos@[j + 1],
        forall|j: int| 0 <= j < parts - 1 ==> #[trigger] pos@[j] <= weights@.len(),
    {
    let n = weights.len();
    // Total weight, exact in u64 by the precondition.
    let mut tot: u64 = 0;
    let mut i: usize = 0;
    while i < n
        invariant
            0 <= i <= n,
            n == weights@.len(),
            tot == csum(weights@, i as int),
            total(weights@) <= u64::MAX,
        decreases n - i,
    {
        proof {
            lemma_csum_mono(weights@, i + 1, n as int);
            lemma_csum_nonneg(weights@, i as int);
        }
        tot = tot + weights[i];
        i = i + 1;
    }
    let mut pos: Vec<usize> = Vec::new();
    let mut p: usize = 0;
    let mut acc: u64 = 0;
    let mut j: usize = 1;
    while j < parts
        invariant
            1 <= j <= parts,
            0 <= p <= n,
            n == weights@.len(),
            tot == total(weights@),
            total(weights@) <= u64::MAX,
            acc == csum(weights@, p as int),
            pos@.len() == j - 1,
            forall|k: int|
                0 <= k < j - 1 ==> is_split_pos(
                    weights@,
                    parts as int,
                    k + 1,
                    #[trigger] pos@[k] as int,
                ),
            forall|k: int| 0 <= k < j - 2 ==> #[trigger] pos@[k] <= pos@[k + 1],
            forall|k: int| 0 <= k < j - 1 ==> #[trigger] pos@[k] as int <= p,
            forall|q: int| 0 <= q < p ==> #[trigger] csum(weights@, q) * (parts as int) < total(
                weights@,
            ) * (j as int),
        decreases parts - j,
    {
        proof {
            lemma_u64_products_fit_u128(tot as int, j as int);
            lemma_csum_nonneg(weights@, p as int);
            lemma_csum_mono(weights@, p as int, n as int);
            lemma_u64_products_fit_u128(acc as int, parts as int);
        }
        let threshold: u128 = (tot as u128) * (j as u128);
        let mut acc_scaled: u128 = (acc as u128) * (parts as u128);
        while acc_scaled < threshold
            invariant
                0 <= p <= n,
                n == weights@.len(),
                tot == total(weights@),
                total(weights@) <= u64::MAX,
                threshold == total(weights@) * (j as int),
                1 <= j < parts,
                acc == csum(weights@, p as int),
                acc_scaled == csum(weights@, p as int) * (parts as int),
                forall|q: int| 0 <= q < p ==> #[trigger] csum(weights@, q) * (parts as int)
                    < total(weights@) * (j as int),
            decreases n - p,
        {
            proof {
                lemma_csum_nonneg(weights@, p as int);
                lemma_csum_mono(weights@, p as int, n as int);
                if p >= n {
                    lemma_csum_nonneg(weights@, n as int);
                    vstd::arithmetic::mul::lemma_mul_inequality(
                        j as int,
                        parts as int,
                        total(weights@),
                    );
                    assert(total(weights@) * (j as int) == (j as int) * total(weights@))
                        by (nonlinear_arith);
                    assert(total(weights@) * (parts as int) == (parts as int) * total(weights@))
                        by (nonlinear_arith);
                    assert(false);
                }
                lemma_csum_mono(weights@, p + 1, n as int);
                lemma_u64_products_fit_u128(weights@[p as int] as int, parts as int);
                lemma_u64_products_fit_u128(csum(weights@, p + 1), parts as int);
                assert((csum(weights@, p as int) + weights@[p as int]) * (parts as int)
                    == csum(weights@, p as int) * (parts as int) + (weights@[p as int] as int) * (
                parts as int)) by (nonlinear_arith);
            }
            acc = acc + weights[p];
            acc_scaled = acc_scaled + (weights[p] as u128) * (parts as u128);
            p = p + 1;
        }
        pos.push(p);
        proof {
            assert forall|q: int|
                0 <= q < p implies #[trigger] csum(weights@, q) * (parts as int) < total(weights@)
                * ((j + 1) as int) by {
                lemma_csum_nonneg(weights@, q);
                vstd::arithmetic::mul::lemma_mul_inequality(
                    j as int,
                    (j + 1) as int,
                    total(weights@),
                );
                assert(total(weights@) * (j as int) == (j as int) * total(weights@))
                    by (nonlinear_arith);
                assert(total(weights@) * ((j + 1) as int) == ((j + 1) as int) * total(weights@))
                    by (nonlinear_arith);
            }
        }
        j = j + 1;
    }
    pos
}


/// Cumulative sums of a uniform weighting are multiples of the weight.
proof fn lemma_csum_uniform(w: Seq<u64>, p: int, c: u64)
    requires
        forall|i: int| 0 <= i < w.len() ==> #[trigger] w[i] == c,
        0 <= p <= w.len(),
    ensures
        csum(w, p) == p * c,
    decreases p,
{
    if p == 0 {
        assert(0 * c == 0) by (nonlinear_arith);
    } else {
        lemma_csum_uniform(w, p - 1, c);
        assert((p - 1) * c + c == p * c) by (nonlinear_arith);
    }
}

/// Under uniform positive weights, a split position is the least prefix
/// whose share of the points reaches the threshold's share of the total:
/// `p * parts >= n * j` and no smaller prefix reaches it.
pub proof fn lemma_uniform_split_pos(w: Seq<u64>, parts: int, j: int, p: int, c: u64)
    requires
        forall|i: int| 0 <= i < w.len() ==> #[trigger] w[i] == c,
        c >= 1,
        1 <= parts,
        0 <= j,
        is_split_pos(w, parts, j, p),
    ensures
        p * parts >= w.len() * j,
        p >= 1 ==> (p - 1) * parts < w.len() * j,
{
    let n = w.len() as int;
    lemma_csum_uniform(w, p, c);
    lemma_csum_uniform(w, n, c);
    assert(total(w) == n * c);
    assert((p * c) * parts >= (n * c) * j ==> p * parts >= n * j) by (nonlinear_arith)
        requires c >= 1, parts >= 1, 0 <= j, 0 <= p, 0 <= n;
    if p >= 1 {
        lemma_csum_uniform(w, p - 1, c);
        assert(csum(w, p - 1) * parts < total(w) * j);
        assert(((p - 1) * c) * parts < (n * c) * j ==> (p - 1) * parts < n * j)
            by (nonlinear_arith)
            requires c >= 1, parts >= 1, 0 <= j, 0 <= p - 1, 0 <= n;
    }
}

/// Law: a uniform-weight split whose part count divides the point count
/// cuts at exact multiples of `n / parts`, so every run holds exactly
/// `n / parts` points.
pub proof fn lemma_uniform_split_exact(w: Seq<u64>, parts: int, j: int, p: int, c: u64)
    requires
        forall|i: int| 0 <= i < w.len() ==> #[trigger] w[i] == c,
        c >= 1,
        1 <= parts,
        0 <= j <= parts,
        w.len() % (parts as nat) == 0,
        is_split_pos(w, parts, j, p),
    ensures
        p * parts == w.len() * j,
{
    let n = w.len() as int;
    lemma_uniform_split_pos(w, parts, j, p, c);
    vstd::arithmetic::div_mod::lemma_fundamental_div_mod(n, parts);
    let m = n / parts;
    // The exact multiple m * j satisfies the threshold, and minimality
    // pins p to it.
    assert(n == parts * m);
    assert(p * parts >= (parts * m) * j);
    if p * parts > n * j {
        // Then p >= m j + 1, so p - 1 >= m j still reaches the threshold,
        // contradicting minimality.
        assert(p > m * j) by (nonlinear_arith)
            requires p * parts > (parts * m) * j, parts >= 1, n == parts * m;
        assert((p - 1) * parts >= (m * j) * parts) by (nonlinear_arith)
            requires p - 1 >= m * j, parts >= 1;
        assert((m * j) * parts == n * j) by (nonlinear_arith)
            requires n == parts * m;
        if p >= 1 {
            assert(false);
        } else {
            assert(p == 0);
            assert(0 * parts == 0) by (nonlinear_arith);
            assert(n * j < 0) by (nonlinear_arith)
                requires p == 0 && p * parts > n * j;
            assert(n * j >= 0) by (nonlinear_arith)
                requires n >= 0, j >= 0;
            assert(false);
        }
    }
}


/// The weights listed in the order of a permutation.
pub open spec fn permuted_weights(weights: Seq<u64>, perm: Seq<usize>) -> Seq<u64> {
    Seq::new(perm.len(), |i: int| weights[perm[i] as int])
}

} // verus!
