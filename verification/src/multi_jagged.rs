//! The multi-jagged multi-way spatial splitter.
//!
//! The number of requested parts is factored into primes; the factors,
//! folded to at most `max_iter` numbers, form the partition scheme
//! `[s_1, ..., s_m]`.  At level `i` every current slab is cut into `s_i`
//! weight-balanced slabs perpendicular to the level's axis, alternating
//! between x and y.

use vstd::prelude::*;
use crate::geometry::Point2D;
use crate::geometry::points_in_range;
use crate::pid::Pid;
use crate::pid::PidMinter;
use crate::pid::lemma_minted_monotone;
use crate::pid::lemma_minted_window;
use crate::pid::lemma_unminted_monotone;
use crate::sort::coord_key;
use crate::sort::sort_indices_by_key;
use crate::split::MAX_POINTS;
use crate::split::is_split_pos;
use crate::split::lemma_total_bounded;
use crate::split::split_positions;
use crate::split::weights_in_range;

verus! {

/// `n` has no divisor strictly between 1 and itself.
pub open spec fn spec_is_prime(n: int) -> bool {
    n >= 2 && forall|d: int| 2 <= d < n ==> #[trigger] (n % d) != 0
}

/// Product of a sequence of factors.
pub open spec fn product(s: Seq<u32>) -> int
    decreases s.len(),
{
    if s.len() == 0 {
        1
    } else {
        product(s.drop_last()) * s.last()
    }
}

/// Product of a sequence of split counts.
pub open spec fn product_usize(s: Seq<usize>) -> int
    decreases s.len(),
{
    if s.len() == 0 {
        1
    } else {
        product_usize(s.drop_last()) * s.last()
    }
}

/// If `b` divides `a` and `c` divides `b`, then `c` divides `a`.
proof fn lemma_divides_transitive(a: int, b: int, c: int)
    requires
        1 <= c,
        1 <= b,
        0 <= a,
        a % b == 0,
        b % c == 0,
    ensures
        a % c == 0,
{
    let k = a / b;
    let l = b / c;
    vstd::arithmetic::div_mod::lemma_fundamental_div_mod(a, b);
    vstd::arithmetic::div_mod::lemma_fundamental_div_mod(b, c);
    assert(a == (c * l) * k) by (nonlinear_arith)
        requires a == b * k && b == c * l;
    assert((c * (l * k)) % c == 0) by {
        vstd::arithmetic::div_mod::lemma_mod_multiples_basic(l * k, c);
        assert(c * (l * k) == (l * k) * c) by (nonlinear_arith);
    }
    assert(c * (l * k) == (c * l) * k) by (nonlinear_arith);
}

/// Whether `n` is prime.
pub fn is_prime(n: u32) -> (r: bool)
    ensures
        r == spec_is_prime(n as int),
{
    if n < 2 {
        return false;
    }
    let mut d: u32 = 2;
    while d <= n / d
        invariant
            2 <= d,
            d <= n + 1,
            n >= 2,
            forall|e: int| 2 <= e < d ==> #[trigger] ((n as int) % e) != 0,
        decreases n - d,
    {
        proof {
            vstd::arithmetic::div_mod::lemma_fundamental_div_mod(n as int, d as int);
            assert((d as int) * (d as int) <= n) by (nonlinear_arith)
                requires
                    n as int == (d as int) * ((n as int) / (d as int)) + (n as int) % (d as int),
                    0 <= (n as int) % (d as int),
                    2 <= d <= (n as int) / (d as int);
        }
        if n % d == 0 {
            proof {
                assert(2 <= d < n) by (nonlinear_arith)
                    requires d as int * d as int <= n && 2 <= d;
            }
            return false;
        }
        proof {
            assert(d < n) by (nonlinear_arith)
                requires d as int * d as int <= n && 2 <= d;
        }
        d = d + 1;
    }
    proof {
        vstd::arithmetic::div_mod::lemma_fundamental_div_mod(n as int, d as int);
        assert((n as int) / (d as int) >= 0) by (nonlinear_arith)
            requires n >= 0 && d >= 2;
        assert((d as int) * (d as int) > n) by (nonlinear_arith)
            requires
                n as int == (d as int) * ((n as int) / (d as int)) + (n as int) % (d as int),
                (n as int) % (d as int) < d,
                2 <= d,
                (n as int) / (d as int) < d,
                (n as int) / (d as int) >= 0;
        assert forall|e: int| 2 <= e < n implies #[trigger] ((n as int) % e) != 0 by {
            if (n as int) % e == 0 && e >= d {
                let k = (n as int) / e;
                vstd::arithmetic::div_mod::lemma_fundamental_div_mod(n as int, e);
                assert(n == e * k);
                assert(2 <= k < d) by (nonlinear_arith)
                    requires
                        n == e * k,
                        2 <= e < n,
                        e >= d,
                        2 <= d,
                        (d as int) * (d as int) > n,
                        n >= 2;
                assert((n as int) % k == 0) by {
                    vstd::arithmetic::div_mod::lemma_mod_multiples_basic(e, k);
                    assert(k * e == e * k) by (nonlinear_arith);
                }
            }
        }
    }
    true
}

/// Pushing a factor multiplies the product.
proof fn lemma_product_push(s: Seq<u32>, v: u32)
    ensures
        product(s.push(v)) == product(s) * v,
{
    assert(s.push(v).drop_last() =~= s);
    assert(s.push(v).last() == v);
}

/// The list of prime factors of `n`, ascending, whose product is `n`.
/// An input less than 2 has no prime factorization; it yields the
/// single-entry list `[1]`, matching a partition scheme that never splits.
pub fn prime_factors(n: u32) -> (fs: Vec<u32>)
    ensures
        n <= 1 ==> fs@ =~= seq![1u32],
        n >= 2 ==> product(fs@) == n as int,
        n >= 2 ==> forall|i: int| 0 <= i < fs@.len() ==> spec_is_prime(#[trigger] fs@[i] as int),
        forall|i: int, j: int| 0 <= i < j < fs@.len() ==> fs@[i] <= fs@[j],
        forall|i: int| 0 <= i < fs@.len() ==> 1 <= #[trigger] fs@[i],
        n >= 2 ==> forall|i: int| 0 <= i < fs@.len() ==> #[trigger] fs@[i] <= n,
        fs@.len() >= 1,
{
    let mut fs: Vec<u32> = Vec::new();
    if n <= 1 {
        fs.push(1);
        return fs;
    }
    let mut m: u32 = n;
    let mut cur: u32 = 2;
    while m > 1
        invariant
            n >= 2,
            1 <= m <= n,
            2 <= cur,
            m > 1 ==> cur <= m,
            product(fs@) * m == n as int,
            forall|e: int| 2 <= e < cur ==> #[trigger] ((m as int) % e) != 0,
            forall|i: int| 0 <= i < fs@.len() ==> spec_is_prime(#[trigger] fs@[i] as int),
            forall|i: int| 0 <= i < fs@.len() ==> 2 <= #[trigger] fs@[i] <= n,
            forall|i: int| 0 <= i < fs@.len() ==> #[trigger] fs@[i] <= cur,
            forall|i: int, j: int| 0 <= i < j < fs@.len() ==> fs@[i] <= fs@[j],
        decreases m, m - cur,
    {
        if m % cur == 0 {
            let ghost old_fs = fs@;
            let ghost old_m = m as int;
            proof {
                // `cur` is prime: a proper divisor of `cur` would divide `m`.
                assert forall|d: int| 2 <= d < cur implies #[trigger] ((cur as int) % d) != 0 by {
                    if (cur as int) % d == 0 {
                        lemma_divides_transitive(m as int, cur as int, d);
                    }
                }
                lemma_product_push(fs@, cur);
            }
            fs.push(cur);
            let q = m / cur;
            proof {
                vstd::arithmetic::div_mod::lemma_fundamental_div_mod(m as int, cur as int);
                assert(m == cur * (m as int / cur as int));
                assert(q < m) by (nonlinear_arith)
                    requires m == cur * q && 2 <= cur && 1 <= m && 0 <= q;
                assert(1 <= q) by (nonlinear_arith)
                    requires m == cur * q && 2 <= m && 0 <= q && 0 <= cur;
                assert(product(old_fs.push(cur)) * q == n as int) by (nonlinear_arith)
                    requires
                        product(old_fs.push(cur)) == product(old_fs) * cur,
                        product(old_fs) * old_m == n as int,
                        old_m == cur * q;
                // No divisor below `cur` divides the quotient either.
                assert forall|e: int| 2 <= e < cur implies #[trigger] ((q as int) % e) != 0 by {
                    if (q as int) % e == 0 {
                        assert((old_m as int) % (q as int) == 0) by {
                            vstd::arithmetic::div_mod::lemma_mod_multiples_basic(
                                cur as int,
                                q as int,
                            );
                            assert(cur as int * q == q as int * cur) by (nonlinear_arith);
                        }
                        lemma_divides_transitive(old_m, q as int, e);
                    }
                }
                // The quotient, if still divisible, is at least `cur`: a
                // smaller quotient would divide itself.
                if q > 1 && q < cur {
                    assert((q as int) % (q as int) == 0) by (nonlinear_arith)
                        requires q >= 1;
                    assert(false);
                }
            }
            m = q;
        } else {
            proof {
                if m > 1 && (cur + 1) > m {
                    assert((m as int) % (m as int) == 0) by (nonlinear_arith)
                        requires m >= 1;
                }
            }
            cur = cur + 1;
        }
    }
    fs
}

/// Pushing a split count multiplies the product.
proof fn lemma_product_usize_push(s: Seq<usize>, v: usize)
    ensures
        product_usize(s.push(v)) == product_usize(s) * v,
{
    assert(s.push(v).drop_last() =~= s);
    assert(s.push(v).last() == v);
}

/// A product of positive factors is positive and at least each factor.
proof fn lemma_product_usize_ge_element(s: Seq<usize>, i: int)
    requires
        forall|j: int| 0 <= j < s.len() ==> 1 <= #[trigger] s[j],
        0 <= i < s.len() || i == -1,
    ensures
        product_usize(s) >= 1,
        0 <= i ==> product_usize(s) >= s[i],
    decreases s.len(),
{
    if s.len() == 0 {
    } else {
        let dl = s.drop_last();
        lemma_product_usize_ge_element(dl, if i < s.len() - 1 { i } else { -1 });
        if i == s.len() - 1 {
            assert(product_usize(s) >= s.last()) by (nonlinear_arith)
                requires
                    product_usize(s) == product_usize(dl) * s.last(),
                    product_usize(dl) >= 1,
                    s.last() >= 1;
        } else if 0 <= i {
            assert(product_usize(s) >= dl[i]) by (nonlinear_arith)
                requires
                    product_usize(s) == product_usize(dl) * s.last(),
                    product_usize(dl) >= dl[i],
                    dl[i] >= 1,
                    s.last() >= 1;
        } else {
            assert(product_usize(s) >= 1) by (nonlinear_arith)
                requires
                    product_usize(s) == product_usize(dl) * s.last(),
                    product_usize(dl) >= 1,
                    s.last() >= 1;
        }
    }
}

/// Replacing one factor rescales the product accordingly.
proof fn lemma_product_usize_update(s: Seq<usize>, i: int, v: usize)
    requires
        0 <= i < s.len(),
    ensures
        product_usize(s.update(i, v)) * s[i] == product_usize(s) * v,
    decreases s.len(),
{
    let u = s.update(i, v);
    if i == s.len() - 1 {
        assert(u.drop_last() =~= s.drop_last());
        assert(product_usize(u) * s[i] == product_usize(s) * v) by (nonlinear_arith)
            requires
                product_usize(u) == product_usize(s.drop_last()) * v,
                product_usize(s) == product_usize(s.drop_last()) * s[i];
    } else {
        let dl = s.drop_last();
        assert(u.drop_last() =~= dl.update(i, v));
        lemma_product_usize_update(dl, i, v);
        assert(product_usize(u) * s[i] == product_usize(s) * v) by (nonlinear_arith)
            requires
                product_usize(u) == product_usize(dl.update(i, v)) * s.last(),
                product_usize(dl.update(i, v)) * dl[i] == product_usize(dl) * v,
                product_usize(s) == product_usize(dl) * s.last(),
                s[i] == dl[i];
    }
}

/// The partition scheme for `num_parts` parts in at most `max_iter`
/// levels: the ascending prime factors of `num_parts`, folded
/// multiplicatively into `max_iter` split counts when there are more
/// factors than levels (largest factors first, each into the currently
/// smallest bucket).  The product of the scheme is `num_parts`.
pub fn partition_scheme(num_parts: usize, max_iter: usize) -> (scheme: Vec<usize>)
    requires
        1 <= max_iter,
        1 <= num_parts <= u32::MAX,
    ensures
        1 <= scheme@.len() <= max_iter,
        product_usize(scheme@) == num_parts,
        forall|i: int| 0 <= i < scheme@.len() ==> 1 <= #[trigger] scheme@[i],
{
    let fs = prime_factors(num_parts as u32);
    proof {
        if num_parts == 1 {
            assert(product(fs@) == product(seq![1u32].drop_last()) * 1);
            assert(seq![1u32].drop_last() =~= Seq::<u32>::empty());
        }
        assert(product(fs@) == num_parts);
    }
    if fs.len() <= max_iter {
        let mut scheme: Vec<usize> = Vec::new();
        let mut i: usize = 0;
        while i < fs.len()
            invariant
                0 <= i <= fs@.len(),
                scheme@.len() == i,
                product_usize(scheme@) == product(fs@.subrange(0, i as int)),
                forall|j: int| 0 <= j < fs@.len() ==> 1 <= #[trigger] fs@[j],
                forall|j: int| 0 <= j < i ==> 1 <= #[trigger] scheme@[j],
            decreases fs@.len() - i,
        {
            proof {
                lemma_product_usize_push(scheme@, fs@[i as int] as usize);
                assert(fs@.subrange(0, i + 1).drop_last() =~= fs@.subrange(0, i as int));
            }
            scheme.push(fs[i] as usize);
            i = i + 1;
        }
        proof {
            assert(fs@.subrange(0, fs@.len() as int) =~= fs@);
        }
        scheme
    } else {
        let mut buckets: Vec<usize> = Vec::new();
        let mut i: usize = 0;
        while i < max_iter
            invariant
                0 <= i <= max_iter,
                buckets@.len() == i,
                product_usize(buckets@) == 1,
                forall|j: int| 0 <= j < i ==> #[trigger] buckets@[j] == 1,
            decreases max_iter - i,
        {
            proof {
                lemma_product_usize_push(buckets@, 1);
            }
            buckets.push(1);
            i = i + 1;
        }
        let mut r: usize = fs.len();
        proof {
            assert(fs@.subrange(0, r as int) =~= fs@);
        }
        while r > 0
            invariant
                0 <= r <= fs@.len(),
                buckets@.len() == max_iter,
                1 <= max_iter,
                num_parts <= u32::MAX,
                product_usize(buckets@) * product(fs@.subrange(0, r as int)) == num_parts,
                forall|j: int| 0 <= j < fs@.len() ==> 1 <= #[trigger] fs@[j],
                forall|j: int| 0 <= j < max_iter ==> 1 <= #[trigger] buckets@[j],
            decreases r,
        {
            r = r - 1;
            let f: usize = fs[r] as usize;
            let mut bi: usize = 0;
            let mut bv: usize = buckets[0];
            let mut t: usize = 1;
            while t < max_iter
                invariant
                    1 <= t <= max_iter,
                    buckets@.len() == max_iter,
                    0 <= bi < max_iter,
                    bv == buckets@[bi as int],
                decreases max_iter - t,
            {
                if buckets[t] < bv {
                    bi = t;
                    bv = buckets[t];
                }
                t = t + 1;
            }
            let ghost old_buckets = buckets@;
            let ghost rest = fs@.subrange(0, r as int);
            proof {
                assert(fs@.subrange(0, r + 1).drop_last() =~= rest);
                assert(product(fs@.subrange(0, r + 1)) == product(rest) * fs@[r as int]);
                lemma_product_usize_ge_element(old_buckets, bi as int);
                lemma_product_for_u32_ge_element(fs@.subrange(0, r + 1));
                lemma_product_for_u32_ge_element(rest);
                assert(1 <= (bv as int) * (f as int)) by (nonlinear_arith)
                    requires 1 <= bv && 1 <= f;
                // The new bucket value divides `num_parts`, so it fits.
                assert((bv as int) * (f as int) <= num_parts) by (nonlinear_arith)
                    requires
                        product_usize(old_buckets) * product(fs@.subrange(0, r + 1)) == num_parts,
                        product(fs@.subrange(0, r + 1)) == product(rest) * (f as int),
                        product_usize(old_buckets) >= bv as int,
                        bv as int >= 1,
                        f as int >= 1,
                        product(rest) >= 1,
                        product(fs@.subrange(0, r + 1)) >= 1;
                lemma_product_usize_update(old_buckets, bi as int, (bv * f) as usize);
            }
            let nb: usize = bv * f;
            buckets.set(bi, nb);
            proof {
                assert(product_usize(buckets@) * product(fs@.subrange(0, r as int)) == num_parts)
                    by (nonlinear_arith)
                    requires
                        buckets@ == old_buckets.update(bi as int, (bv * f) as usize),
                        product_usize(old_buckets.update(bi as int, (bv * f) as usize)) * (
                        old_buckets[bi as int] as int) == product_usize(old_buckets) * ((bv * f)
                            as int),
                        old_buckets[bi as int] == bv,
                        1 <= bv,
                        (bv * f) as int == (bv as int) * (f as int),
                        product_usize(old_buckets) * product(fs@.subrange(0, r + 1)) == num_parts,
                        product(fs@.subrange(0, r + 1)) == product(fs@.subrange(0, r as int)) * (
                        f as int);
            }
        }
        proof {
            assert(fs@.subrange(0, 0) =~= Seq::<u32>::empty());
        }
        buckets
    }
}

/// Start of the `j`-th of the consecutive runs cut at `pos`.
pub open spec fn cut_lo(pos: Seq<usize>, j: int) -> int {
    if j <= 0 {
        0
    } else {
        pos[j - 1] as int
    }
}

/// End of the `j`-th of the consecutive runs cut at `pos`, `n` being the
/// overall length.
pub open spec fn cut_hi(pos: Seq<usize>, j: int, n: int) -> int {
    if j >= pos.len() {
        n
    } else {
        pos[j] as int
    }
}

/// Adjacent sortedness extends to any two positions.
proof fn lemma_adjacent_sorted(pos: Seq<usize>, i: int, j: int)
    requires
        forall|t: int| 0 <= t < pos.len() - 1 ==> #[trigger] pos[t] <= pos[t + 1],
        0 <= i <= j < pos.len(),
    ensures
        pos[i] <= pos[j],
    decreases j - i,
{
    if i < j {
        lemma_adjacent_sorted(pos, i, j - 1);
    }
}

/// Every rank below `n` falls in one of the runs cut at `pos`.
proof fn lemma_cuts_cover(pos: Seq<usize>, n: int, r: int)
    requires
        forall|t: int| 0 <= t < pos.len() - 1 ==> #[trigger] pos[t] <= pos[t + 1],
        forall|t: int| 0 <= t < pos.len() ==> #[trigger] pos[t] <= n,
        0 <= r < n,
    ensures
        exists|j: int| 0 <= j <= pos.len() && cut_lo(pos, j) <= r < #[trigger] cut_hi(pos, j, n),
    decreases pos.len(),
{
    if pos.len() == 0 {
        assert(cut_lo(pos, 0) <= r < cut_hi(pos, 0, n));
    } else {
        let last = pos[pos.len() - 1] as int;
        if r >= last {
            let j = pos.len() as int;
            assert(cut_lo(pos, j) <= r < cut_hi(pos, j, n));
        } else {
            let dl = pos.drop_last();
            assert forall|t: int| 0 <= t < dl.len() implies #[trigger] dl[t] <= last by {
                lemma_adjacent_sorted(pos, t, pos.len() - 1);
            }
            lemma_cuts_cover(dl, last, r);
            let j = choose|j: int|
                0 <= j <= dl.len() && cut_lo(dl, j) <= r < #[trigger] cut_hi(dl, j, last);
            assert(cut_lo(pos, j) == cut_lo(dl, j));
            if j < dl.len() {
                assert(cut_hi(pos, j, n) == cut_hi(dl, j, last));
            } else {
                assert(cut_hi(pos, j, n) == pos[j] as int);
            }
            assert(cut_lo(pos, j) <= r < cut_hi(pos, j, n));
        }
    }
}

/// Cut a sequence into consecutive runs at the given sorted positions.
/// The `j`-th run is `items[pos[j-1] .. pos[j]]`, the first starting at 0
/// and the last ending at `items.len()`.
pub fn split_at_many<T: Copy>(items: &Vec<T>, positions: &Vec<usize>) -> (pieces: Vec<Vec<T>>)
    requires
        positions@.len() < usize::MAX,
        forall|t: int| 0 <= t < positions@.len() ==> #[trigger] positions@[t] <= items@.len(),
        forall|t: int|
            0 <= t < positions@.len() - 1 ==> #[trigger] positions@[t] <= positions@[t + 1],
    ensures
        pieces@.len() == positions@.len() + 1,
        forall|j: int|
            0 <= j < pieces@.len() ==> (#[trigger] pieces@[j])@ == items@.subrange(
                cut_lo(positions@, j),
                cut_hi(positions@, j, items@.len() as int),
            ),
{
    let n = items.len();
    let k = positions.len();
    let mut pieces: Vec<Vec<T>> = Vec::new();
    let mut j: usize = 0;
    while j <= k
        invariant
            0 <= j <= k + 1,
            k < usize::MAX,
            k == positions@.len(),
            n == items@.len(),
            forall|t: int| 0 <= t < k ==> #[trigger] positions@[t] <= n,
            forall|t: int| 0 <= t < k - 1 ==> #[trigger] positions@[t] <= positions@[t + 1],
            pieces@.len() == j,
            forall|t: int|
                0 <= t < j ==> (#[trigger] pieces@[t])@ == items@.subrange(
                    cut_lo(positions@, t),
                    cut_hi(positions@, t, n as int),
                ),
        decreases k + 1 - j,
    {
        let lo: usize = if j == 0 {
            0
        } else {
            positions[j - 1]
        };
        let hi: usize = if j == k {
            n
        } else {
            positions[j]
        };
        proof {
            if 0 < j && j < k {
                assert(positions@[j - 1] <= positions@[j as int]);
            }
        }
        let mut piece: Vec<T> = Vec::new();
        let mut t: usize = lo;
        while t < hi
            invariant
                lo <= t <= hi <= n,
                n == items@.len(),
                piece@.len() == t - lo,
                forall|u: int| 0 <= u < t - lo ==> #[trigger] piece@[u] == items@[lo + u],
            decreases hi - t,
        {
            piece.push(items[t]);
            t = t + 1;
        }
        proof {
            assert(piece@ =~= items@.subrange(
                cut_lo(positions@, j as int),
                cut_hi(positions@, j as int, n as int),
            ));
        }
        pieces.push(piece);
        j = j + 1;
    }
    pieces
}

/// Product of the scheme's split counts from `level` on.
pub open spec fn scheme_tail_product(scheme: Seq<usize>, level: int) -> int
    decreases scheme.len() - level,
{
    if level < 0 || level >= scheme.len() {
        1
    } else {
        scheme[level] * scheme_tail_product(scheme, level + 1)
    }
}

/// A tail product of positive split counts is at least 1.
proof fn lemma_scheme_tail_product_pos(scheme: Seq<usize>, level: int)
    requires
        forall|i: int| 0 <= i < scheme.len() ==> 1 <= #[trigger] scheme[i],
    ensures
        scheme_tail_product(scheme, level) >= 1,
    decreases scheme.len() - level,
{
    if 0 <= level < scheme.len() {
        lemma_scheme_tail_product_pos(scheme, level + 1);
        assert(scheme[level] * scheme_tail_product(scheme, level + 1) >= 1) by (nonlinear_arith)
            requires
                scheme[level] >= 1,
                scheme_tail_product(scheme, level + 1) >= 1;
    }
}

/// Peeling the first factor off a product.
proof fn lemma_product_usize_front(s: Seq<usize>)
    requires
        s.len() > 0,
    ensures
        product_usize(s) == s[0] * product_usize(s.drop_first()),
    decreases s.len(),
{
    if s.len() == 1 {
        assert(s.drop_first() =~= Seq::<usize>::empty());
        assert(s.drop_last() =~= Seq::<usize>::empty());
        assert(product_usize(s.drop_last()) == 1);
        assert(product_usize(s.drop_first()) == 1);
        assert(product_usize(s) == product_usize(s.drop_last()) * (s.last() as int));
        assert(1 * (s.last() as int) == (s[0] as int) * 1) by (nonlinear_arith)
            requires s.last() == s[0];
    } else {
        let dl = s.drop_last();
        lemma_product_usize_front(dl);
        assert(s.drop_first().drop_last() =~= dl.drop_first());
        assert(s.drop_first().last() == s.last());
        assert(product_usize(s) == s[0] * product_usize(s.drop_first())) by (nonlinear_arith)
            requires
                product_usize(s) == product_usize(dl) * s.last(),
                product_usize(dl) == s[0] * product_usize(dl.drop_first()),
                product_usize(s.drop_first()) == product_usize(dl.drop_first()) * s.last();
    }
}

/// The tail product from `level` is the product of the scheme past `level`.
pub proof fn lemma_scheme_tail_product_full(s: Seq<usize>, level: int)
    requires
        0 <= level <= s.len(),
    ensures
        scheme_tail_product(s, level) == product_usize(s.subrange(level, s.len() as int)),
    decreases s.len() - level,
{
    if level == s.len() {
        assert(s.subrange(level, s.len() as int) =~= Seq::<usize>::empty());
    } else {
        lemma_scheme_tail_product_full(s, level + 1);
        let sub = s.subrange(level, s.len() as int);
        lemma_product_usize_front(sub);
        assert(sub.drop_first() =~= s.subrange(level + 1, s.len() as int));
    }
}

/// A product of factors that are each at least 1 is at least 1 and at
/// least its last factor.
proof fn lemma_product_for_u32_ge_element(s: Seq<u32>)
    requires
        forall|j: int| 0 <= j < s.len() ==> 1 <= #[trigger] s[j],
    ensures
        product(s) >= 1,
        s.len() > 0 ==> product(s) >= s.last(),
    decreases s.len(),
{
    if s.len() == 0 {
    } else {
        let dl = s.drop_last();
        lemma_product_for_u32_ge_element(dl);
        assert(product(s) >= s.last() && product(s) >= 1) by (nonlinear_arith)
            requires
                product(s) == product(dl) * s.last(),
                product(dl) >= 1,
                s.last() >= 1;
    }
}

/// Ranks already covered once the first `t` runs have been handled.
pub open spec fn covered(pos: Seq<usize>, t: int, n: int) -> int {
    if t <= 0 {
        0
    } else {
        cut_hi(pos, t - 1, n)
    }
}

/// The recursive slab cutter.  Sorts its slice of the permutation along
/// the level's axis, cuts it into `scheme[level]` weight-balanced runs and
/// recurses; a fully cut slab is one part and gets one fresh identifier.
#[verifier::rlimit(60)]
fn mj_recurse(
    points: &Vec<Point2D>,
    weights: &Vec<u64>,
    perm: &Vec<usize>,
    x_axis: bool,
    scheme: &Vec<usize>,
    level: usize,
    ids: &mut Vec<Pid>,
    minter: &mut PidMinter,
)
    requires
        weights@.len() == points@.len(),
        old(ids)@.len() == points@.len(),
        points@.len() <= MAX_POINTS,
        weights_in_range(weights@),
        perm@.len() <= points@.len(),
        forall|j: int| 0 <= j < perm@.len() ==> (#[trigger] perm@[j]) < points@.len(),
        perm@.no_duplicates(),
        level <= scheme@.len(),
        forall|i: int| 0 <= i < scheme@.len() ==> 1 <= #[trigger] scheme@[i],
        old(minter).spec_next() + scheme_tail_product(scheme@, level as int) <= u64::MAX,
    ensures
        final(ids)@.len() == old(ids)@.len(),
        final(minter).spec_next() == old(minter).spec_next() + scheme_tail_product(
            scheme@,
            level as int,
        ),
        forall|idx: int|
            0 <= idx < old(ids)@.len() && !perm@.contains(idx as usize) ==> final(ids)@[idx]
                == old(ids)@[idx],
        forall|j: int|
            0 <= j < perm@.len() ==> !old(minter).minted(
                final(ids)@[(#[trigger] perm@[j]) as int],
            ) && final(minter).minted(final(ids)@[perm@[j] as int]),
    decreases scheme@.len() - level,
{
    proof {
        lemma_scheme_tail_product_pos(scheme@, level as int);
    }
    let n = points.len();
    if level == scheme.len() {
        let p = minter.fresh();
        let mut j: usize = 0;
        while j < perm.len()
            invariant
                0 <= j <= perm@.len(),
                ids@.len() == n,
                n == points@.len(),
                forall|t: int| 0 <= t < perm@.len() ==> (#[trigger] perm@[t]) < n,
                !old(minter).minted(p),
                minter.minted(p),
                minter.spec_next() == old(minter).spec_next() + 1,
                forall|t: int| 0 <= t < j ==> ids@[(#[trigger] perm@[t]) as int] == p,
                forall|idx: int|
                    0 <= idx < ids@.len() && !perm@.subrange(0, j as int).contains(idx as usize)
                        ==> ids@[idx] == old(ids)@[idx],
            decreases perm@.len() - j,
        {
            let ghost prev = ids@;
            let idx = perm[j];
            ids.set(idx, p);
            proof {
                assert forall|q: int|
                    0 <= q < ids@.len() && !perm@.subrange(0, j + 1).contains(q as usize)
                        implies ids@[q] == old(ids)@[q] by {
                    assert(perm@.subrange(0, j + 1)[j as int] == perm@[j as int]);
                    assert(q != perm@[j as int]);
                    assert forall|u: int|
                        0 <= u < j implies perm@.subrange(0, j + 1)[u] == perm@.subrange(
                        0,
                        j as int,
                    )[u] by {}
                    if perm@.subrange(0, j as int).contains(q as usize) {
                        let u = choose|u: int|
                            0 <= u < j && perm@.subrange(0, j as int)[u] == q as usize;
                        assert(perm@.subrange(0, j + 1)[u] == q as usize);
                    }
                }
            }
            j = j + 1;
        }
        proof {
            assert(perm@.subrange(0, perm@.len() as int) =~= perm@);
            assert forall|j: int|
                0 <= j < perm@.len() implies !old(minter).minted(
                ids@[(#[trigger] perm@[j]) as int],
            ) && minter.minted(ids@[perm@[j] as int]) by {
                assert(ids@[perm@[j] as int] == p);
            }
        }
    } else {
        let ghost m0 = *minter;
        let num_splits = scheme[level];
        let next_level = level + 1;
        let ghost p1 = scheme_tail_product(scheme@, level as int + 1);
        proof {
            lemma_scheme_tail_product_pos(scheme@, level as int + 1);
            assert(scheme_tail_product(scheme@, level as int) == scheme@[level as int] * p1);
        }
        // Keys along this level's axis.
        let mut keys: Vec<u64> = Vec::new();
        let mut j: usize = 0;
        while j < perm.len()
            invariant
                0 <= j <= perm@.len(),
                keys@.len() == j,
                n == points@.len(),
                forall|t: int| 0 <= t < perm@.len() ==> (#[trigger] perm@[t]) < n,
            decreases perm@.len() - j,
        {
            let pt = points[perm[j]];
            keys.push(coord_key(if x_axis { pt.x } else { pt.y }));
            j = j + 1;
        }
        let order = sort_indices_by_key(&keys);
        // The permutation, reordered along the axis.
        let mut new_perm: Vec<usize> = Vec::new();
        let mut j: usize = 0;
        while j < order.len()
            invariant
                0 <= j <= order@.len(),
                order@.len() == perm@.len(),
                new_perm@.len() == j,
                n == points@.len(),
                forall|t: int| 0 <= t < perm@.len() ==> (#[trigger] perm@[t]) < n,
                forall|t: int| 0 <= t < order@.len() ==> (#[trigger] order@[t]) < perm@.len(),
                forall|t: int|
                    0 <= t < j ==> #[trigger] new_perm@[t] == perm@[order@[t] as int],
            decreases order@.len() - j,
        {
            new_perm.push(perm[order[j]]);
            j = j + 1;
        }
        let ghost np = new_perm@.len() as int;
        proof {
            assert forall|t: int| 0 <= t < np implies (#[trigger] new_perm@[t]) < n by {}
            assert(new_perm@.no_duplicates()) by {
                assert forall|a: int, b: int|
                    0 <= a < np && 0 <= b < np && a != b implies new_perm@[a] != new_perm@[b] by {
                    assert(order@[a] != order@[b]);
                }
            }
            assert forall|x: usize| perm@.contains(x) implies new_perm@.contains(x) by {
                let i = choose|i: int| 0 <= i < perm@.len() && perm@[i] == x;
                assert(order@.contains(i as usize));
                let t = choose|t: int| 0 <= t < order@.len() && order@[t] == i as usize;
                assert(new_perm@[t] == x);
            }
            assert forall|x: usize| new_perm@.contains(x) implies perm@.contains(x) by {
                let t = choose|t: int| 0 <= t < np && new_perm@[t] == x;
                assert(perm@[order@[t] as int] == x);
            }
        }
        // The weights, in the new order.
        let mut pw: Vec<u64> = Vec::new();
        let mut j: usize = 0;
        while j < new_perm.len()
            invariant
                0 <= j <= np,
                np == new_perm@.len(),
                pw@.len() == j,
                weights@.len() == n,
                n == points@.len(),
                weights_in_range(weights@),
                forall|t: int| 0 <= t < np ==> (#[trigger] new_perm@[t]) < n,
                forall|t: int| 0 <= t < j ==> #[trigger] pw@[t] == weights@[new_perm@[t] as int],
            decreases np - j,
        {
            pw.push(weights[new_perm[j]]);
            j = j + 1;
        }
        proof {
            assert(weights_in_range(pw@));
            lemma_total_bounded(pw@);
        }
        let positions = split_positions(&pw, num_splits);
        let pieces = split_at_many(&new_perm, &positions);
        let ghost pos = positions@;
        proof {
            assert(pieces@.len() == num_splits);
        }
        let mut t: usize = 0;
        while t < pieces.len()
            invariant
                0 <= t <= pieces@.len(),
                pieces@.len() == num_splits,
                num_splits == scheme@[level as int],
                ids@.len() == n,
                n == points@.len(),
                weights@.len() == n,
                points@.len() <= MAX_POINTS,
                weights_in_range(weights@),
                level < scheme@.len(),
                next_level == level + 1,
                forall|i: int| 0 <= i < scheme@.len() ==> 1 <= #[trigger] scheme@[i],
                p1 == scheme_tail_product(scheme@, level as int + 1),
                p1 >= 1,
                scheme_tail_product(scheme@, level as int) == num_splits * p1,
                m0 == *old(minter),
                m0.spec_next() + num_splits * p1 <= u64::MAX,
                minter.spec_next() == m0.spec_next() + t * p1,
                np == new_perm@.len(),
                np <= n,
                pos == positions@,
                pos.len() == num_splits - 1,
                forall|u: int| 0 <= u < pos.len() ==> (#[trigger] pos[u]) <= np,
                forall|u: int| 0 <= u < pos.len() - 1 ==> (#[trigger] pos[u]) <= pos[u + 1],
                forall|u: int| 0 <= u < np ==> (#[trigger] new_perm@[u]) < n,
                new_perm@.no_duplicates(),
                forall|x: usize| perm@.contains(x) <==> new_perm@.contains(x),
                forall|u: int|
                    0 <= u < pieces@.len() ==> (#[trigger] pieces@[u])@ == new_perm@.subrange(
                        cut_lo(pos, u),
                        cut_hi(pos, u, np),
                    ),
                forall|idx: int|
                    0 <= idx < n && !new_perm@.contains(idx as usize) ==> ids@[idx] == old(
                        ids,
                    )@[idx],
                forall|r: int|
                    0 <= r < covered(pos, t as int, np) ==> !m0.minted(
                        #[trigger] ids@[new_perm@[r] as int],
                    ) && minter.minted(ids@[new_perm@[r] as int]),
            decreases pieces@.len() - t,
        {
            let ghost mid = *minter;
            let ghost pre = ids@;
            let ghost lo = cut_lo(pos, t as int);
            let ghost hi = cut_hi(pos, t as int, np);
            let piece: &Vec<usize> = &pieces[t];
            proof {
                assert(piece@ == new_perm@.subrange(lo, hi));
                if t > 0 {
                    if t < pos.len() {
                        lemma_adjacent_sorted(pos, t - 1, t as int);
                    }
                }
                assert(0 <= lo <= hi <= np);
                assert forall|u: int| 0 <= u < piece@.len() implies (#[trigger] piece@[u]) < n by {
                    assert(piece@[u] == new_perm@[lo + u]);
                }
                assert(piece@.no_duplicates()) by {
                    assert forall|a: int, b: int|
                        0 <= a < piece@.len() && 0 <= b < piece@.len() && a != b
                            implies piece@[a] != piece@[b] by {
                        assert(piece@[a] == new_perm@[lo + a]);
                        assert(piece@[b] == new_perm@[lo + b]);
                    }
                }
                assert((t + 1) * p1 <= num_splits * p1) by (nonlinear_arith)
                    requires t + 1 <= num_splits && p1 >= 1;
                assert(t * p1 + p1 == (t + 1) * p1) by (nonlinear_arith);
            }
            mj_recurse(points, weights, piece, !x_axis, scheme, next_level, ids, minter);
            proof {
                // Indices outside this run are untouched; earlier runs keep
                // their freshly minted identifiers.
                assert forall|idx: int|
                    0 <= idx < n && !new_perm@.contains(idx as usize) implies ids@[idx] == old(
                    ids,
                )@[idx] by {
                    if piece@.contains(idx as usize) {
                        let u = choose|u: int| 0 <= u < piece@.len() && piece@[u] == idx as usize;
                        assert(new_perm@[lo + u] == idx as usize);
                        assert(new_perm@.contains(idx as usize));
                    }
                    assert(ids@[idx] == pre[idx]);
                }
                assert forall|r: int|
                    0 <= r < covered(pos, t + 1, np) implies !m0.minted(
                    #[trigger] ids@[new_perm@[r] as int],
                ) && minter.minted(ids@[new_perm@[r] as int]) by {
                    assert(covered(pos, t + 1, np) == hi);
                    assert(covered(pos, t as int, np) == lo);
                    if r < lo {
                        // Written by an earlier run; this run did not touch it.
                        let idx = new_perm@[r];
                        if piece@.contains(idx) {
                            let u = choose|u: int|
                                0 <= u < piece@.len() && piece@[u] == idx;
                            assert(new_perm@[lo + u] == idx);
                            assert(r != lo + u);
                            assert(false);
                        }
                        assert(ids@[idx as int] == pre[idx as int]);
                        lemma_minted_monotone(mid, *minter, ids@[idx as int]);
                    } else {
                        // Written by this run.
                        let u = r - lo;
                        assert(piece@[u] == new_perm@[r]);
                        assert(!mid.minted(ids@[piece@[u] as int]));
                        assert(minter.minted(ids@[piece@[u] as int]));
                        lemma_unminted_monotone(m0, mid, ids@[piece@[u] as int]);
                    }
                }
            }
            t = t + 1;
        }
        proof {
            assert(covered(pos, num_splits as int, np) == np);
            assert(minter.spec_next() == m0.spec_next() + num_splits * p1);
            assert forall|j: int|
                0 <= j < perm@.len() implies !old(minter).minted(
                ids@[(#[trigger] perm@[j]) as int],
            ) && minter.minted(ids@[perm@[j] as int]) by {
                let x = perm@[j];
                assert(perm@.contains(x));
                assert(new_perm@.contains(x));
                let r = choose|r: int| 0 <= r < np && new_perm@[r] == x;
            }
        }
    }
}


/// Partition the points into weight-balanced parts following the given
/// partition scheme: at each level every slab is cut into `scheme[level]`
/// weight-balanced runs, perpendicular to the level's axis (x first).
///
/// Every returned identifier was minted by this call, and all of them lie
/// in a counter window of width `1 + product(scheme)`: the scheme yields
/// at most `product(scheme)` distinct parts
/// (see [`lemma_multi_jagged_part_count`]).
pub fn multi_jagged_2d_with_scheme(
    points: &Vec<Point2D>,
    weights: &Vec<u64>,
    partition_scheme: &Vec<usize>,
    minter: &mut PidMinter,
) -> (ids: Vec<Pid>)
    requires
        points@.len() == weights@.len(),
        points@.len() <= MAX_POINTS,
        points_in_range(points@),
        weights_in_range(weights@),
        forall|i: int|
            0 <= i < partition_scheme@.len() ==> 1 <= #[trigger] partition_scheme@[i],
        old(minter).spec_next() + 1 + scheme_tail_product(partition_scheme@, 0) <= u64::MAX,
    ensures
        ids@.len() == points@.len(),
        forall|i: int|
            0 <= i < ids@.len() ==> !old(minter).minted(#[trigger] ids@[i])
                && final(minter).minted(ids@[i]),
        forall|i: int|
            0 <= i < ids@.len() ==> old(minter).spec_next() < (#[trigger] ids@[i]).spec_id()
                < old(minter).spec_next() + 1 + scheme_tail_product(partition_scheme@, 0),
        final(minter).spec_next() == old(minter).spec_next() + 1 + scheme_tail_product(
            partition_scheme@,
            0,
        ),
{
    let ghost m_start = *minter;
    let n = points.len();
    proof {
        lemma_scheme_tail_product_pos(partition_scheme@, 0);
    }
    let init = minter.fresh();
    let ghost m_filled = *minter;
    let mut ids: Vec<Pid> = Vec::new();
    let mut i: usize = 0;
    while i < n
        invariant
            0 <= i <= n,
            ids@.len() == i,
        decreases n - i,
    {
        ids.push(init);
        i = i + 1;
    }
    let mut perm: Vec<usize> = Vec::new();
    let mut i: usize = 0;
    while i < n
        invariant
            0 <= i <= n,
            perm@.len() == i,
            forall|t: int| 0 <= t < i ==> #[trigger] perm@[t] == t as usize,
        decreases n - i,
    {
        perm.push(i);
        i = i + 1;
    }
    proof {
        assert(perm@.no_duplicates());
    }
    mj_recurse(
        points,
        weights,
        &perm,
        true,
        partition_scheme,
        0,
        &mut ids,
        minter,
    );
    proof {
        assert forall|i: int|
            0 <= i < ids@.len() implies !m_start.minted(#[trigger] ids@[i]) && minter.minted(
            ids@[i],
        ) && m_start.spec_next() < ids@[i].spec_id() < m_start.spec_next() + 1
            + scheme_tail_product(partition_scheme@, 0) by {
            assert(perm@[i] == i as usize);
            assert(!m_filled.minted(ids@[i]) && minter.minted(ids@[i]));
            lemma_unminted_monotone(m_start, m_filled, ids@[i]);
            lemma_minted_window(m_filled, *minter, ids@[i]);
        }
    }
    ids
}

/// Law: the output of the multi-jagged splitter for a scheme carries at
/// most `product(scheme)` distinct part identifiers.  The window bound in
/// the partitioner's contract is turned into a count of distinct parts.
pub proof fn lemma_multi_jagged_part_count(ids: Seq<Pid>, next0: nat, scheme: Seq<usize>)
    requires
        forall|i: int| 0 <= i < scheme.len() ==> 1 <= #[trigger] scheme[i],
        forall|i: int|
            0 <= i < ids.len() ==> next0 < (#[trigger] ids[i]).spec_id() < next0 + 1
                + scheme_tail_product(scheme, 0),
    ensures
        ids.to_set().finite(),
        ids.to_set().len() <= scheme_tail_product(scheme, 0),
{
    lemma_scheme_tail_product_pos(scheme, 0);
    crate::pid::lemma_distinct_pids_bounded(
        ids,
        next0 + 1,
        scheme_tail_product(scheme, 0) as nat,
    );
}

/// Partition the points into `num_partitions` weight-balanced parts in at
/// most `max_iter` levels of cuts.  The partition scheme is the folded
/// prime factorization of `num_partitions`, so the output carries at most
/// `num_partitions` distinct identifiers, all minted by this call.
pub fn multi_jagged(
    points: &Vec<Point2D>,
    weights: &Vec<u64>,
    num_partitions: usize,
    max_iter: usize,
    minter: &mut PidMinter,
) -> (ids: Vec<Pid>)
    requires
        points@.len() == weights@.len(),
        points@.len() <= MAX_POINTS,
        points_in_range(points@),
        weights_in_range(weights@),
        1 <= num_partitions <= u32::MAX,
        1 <= max_iter,
        old(minter).spec_next() + 1 + num_partitions <= u64::MAX,
    ensures
        ids@.len() == points@.len(),
        forall|i: int|
            0 <= i < ids@.len() ==> !old(minter).minted(#[trigger] ids@[i])
                && final(minter).minted(ids@[i]),
        forall|i: int|
            0 <= i < ids@.len() ==> old(minter).spec_next() < (#[trigger] ids@[i]).spec_id()
                < old(minter).spec_next() + 1 + num_partitions,
        final(minter).spec_next() == old(minter).spec_next() + 1 + num_partitions,
{
    let scheme = partition_scheme(num_partitions, max_iter);
    proof {
        lemma_scheme_tail_product_full(scheme@, 0);
        assert(scheme@.subrange(0, scheme@.len() as int) =~= scheme@);
        assert(scheme_tail_product(scheme@, 0) == num_partitions);
    }
    multi_jagged_2d_with_scheme(points, weights, &scheme, minter)
}


/// The labelling cuts an ordering of the points into weight-balanced
/// runs: `pos` lists the split positions of the permuted weights for `k`
/// runs, and every point is labelled with the identifier of the run its
/// rank falls in — the `j`-th run covering the ranks from `pos[j-1]` to
/// `pos[j]`.
pub open spec fn run_assignment(
    weights: Seq<u64>,
    ids: Seq<Pid>,
    k: int,
    perm: Seq<usize>,
    pos: Seq<usize>,
    pids: Seq<Pid>,
) -> bool {
    &&& pids.len() == k
    &&& (forall|j1: int, j2: int| 0 <= j1 < j2 < k ==> pids[j1] != pids[j2])
    &&& pos.len() == k - 1
    &&& (forall|j: int| 0 <= j < k - 1 ==> (#[trigger] pos[j]) <= perm.len())
    &&& (forall|j: int| 0 <= j < k - 2 ==> (#[trigger] pos[j]) <= pos[j + 1])
    &&& (forall|j: int|
        0 <= j < k - 1 ==> is_split_pos(
            crate::split::permuted_weights(weights, perm),
            k,
            j + 1,
            (#[trigger] pos[j]) as int,
        ))
    &&& (forall|r: int|
        0 <= r < perm.len() ==> exists|j: int|
            0 <= j <= pos.len() && cut_lo(pos, j) <= r < cut_hi(pos, j, perm.len() as int)
                && ids[(#[trigger] perm[r]) as int] == #[trigger] pids[j])
}


/// Law: under uniform positive weights, with the part count dividing the
/// point count, every run of a run-assignment labelling covers exactly
/// `n / k` consecutive ranks of the ordering: each part of a curve
/// partitioner holds exactly its equal share of the points.
pub proof fn lemma_uniform_run_sizes(
    weights: Seq<u64>,
    ids: Seq<Pid>,
    k: int,
    perm: Seq<usize>,
    pos: Seq<usize>,
    pids: Seq<Pid>,
    c: u64,
)
    requires
        run_assignment(weights, ids, k, perm, pos, pids),
        perm.len() == weights.len(),
        forall|i: int| 0 <= i < perm.len() ==> (#[trigger] perm[i]) < weights.len(),
        forall|i: int| 0 <= i < weights.len() ==> #[trigger] weights[i] == c,
        c >= 1,
        k >= 1,
        weights.len() % (k as nat) == 0,
    ensures
        forall|j: int|
            0 <= j < k ==> (cut_hi(pos, j, perm.len() as int) - #[trigger] cut_lo(pos, j)) * k
                == perm.len(),
{
    let n = perm.len() as int;
    let pw = crate::split::permuted_weights(weights, perm);
    assert(pw.len() == n);
    assert forall|i: int| 0 <= i < pw.len() implies #[trigger] pw[i] == c by {
        assert(pw[i] == weights[perm[i] as int]);
    }
    assert forall|j: int| 0 <= j < k - 1 implies (#[trigger] pos[j]) * k == n * (j + 1) by {
        crate::split::lemma_uniform_split_exact(pw, k, j + 1, pos[j] as int, c);
    }
    assert forall|j: int|
        0 <= j < k implies (cut_hi(pos, j, n) - #[trigger] cut_lo(pos, j)) * k == n by {
        let lo = cut_lo(pos, j);
        let hi = cut_hi(pos, j, n);
        assert(lo * k == n * j) by {
            if j == 0 {
                assert(0 * k == 0) by (nonlinear_arith);
                assert(n * 0 == 0) by (nonlinear_arith);
            } else {
                assert(pos[j - 1] * k == n * j);
            }
        }
        assert(hi * k == n * (j + 1)) by {
            if j < k - 1 {
                assert(pos[j] * k == n * (j + 1));
            } else {
                assert(n * k == n * ((k - 1) + 1)) by (nonlinear_arith);
            }
        }
        assert((hi - lo) * k == hi * k - lo * k) by (nonlinear_arith);
        assert(n * (j + 1) - n * j == n) by (nonlinear_arith);
    }
}

} // verus!
