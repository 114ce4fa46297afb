//! The Z-order space-filling curve.
//!
//! The bounding box of the point set is split recursively into quadrants.
//! A point's hash collects two bits per level — the index of the quadrant
//! it falls in (bottom-left 0, bottom-right 1, top-left 2, top-right 3) —
//! down to a fixed depth, the curve's order.  Sorting the points by hash,
//! ties broken by input index, yields the Z-ordering.  A region left with
//! at most one point is not subdivided further: the lone point's remaining
//! bits are taken directly, which leaves the ordering unchanged.
//!
//! Translating the whole point set leaves every hash unchanged (see
//! [`lemma_zcurve_translate_invariant`]).  Rescaling an axis by a factor
//! other than one can change the ordering, because the boxes are split at
//! floored integer midpoints, which a scaling does not carry along; the
//! Hilbert curve's grid map, by contrast, is invariant under any positive
//! affine rescaling.

use vstd::prelude::*;
use vstd::arithmetic::power2::pow2;
use vstd::arithmetic::power2::lemma2_to64;
use vstd::arithmetic::power2::lemma_pow2_strictly_increases;
use crate::geometry::Aabb2D;
use crate::geometry::Point2D;
use crate::geometry::Quadrant;
use crate::geometry::points_in_range;
use crate::geometry::quadrant_code;
use crate::geometry::quadrant_index;
use crate::pid::Pid;
use crate::pid::PidMinter;
use crate::sort::is_permutation;
use crate::sort::sort_indices_by_key;
use crate::split::MAX_POINTS;
use crate::split::lemma_total_bounded;
use crate::split::split_positions;
use crate::split::weights_in_range;

verus! {

/// The deepest supported curve order: hashes fit in 62 bits.
pub const MAX_ORDER: u32 = 31;

/// Powers of four.
pub open spec fn pow4(n: nat) -> int
    decreases n,
{
    if n == 0 {
        1
    } else {
        4 * pow4((n - 1) as nat)
    }
}

proof fn lemma_pow4_pos(n: nat)
    ensures
        pow4(n) >= 1,
    decreases n,
{
    if n > 0 {
        lemma_pow4_pos((n - 1) as nat);
    }
}

proof fn lemma_pow4_pow2(n: nat)
    ensures
        pow4(n) == pow2(2 * n),
    decreases n,
{
    if n == 0 {
        assert(pow2(0) == 1) by {
            lemma2_to64();
        }
    } else {
        lemma_pow4_pow2((n - 1) as nat);
        assert(pow2(2 * n) == 2 * pow2((2 * n - 1) as nat)) by {
            vstd::arithmetic::power2::lemma_pow2_unfold(2 * n);
        }
        assert(pow2((2 * n - 1) as nat) == 2 * pow2((2 * n - 2) as nat)) by {
            vstd::arithmetic::power2::lemma_pow2_unfold((2 * n - 1) as nat);
        }
        assert(2 * (n - 1) == 2 * n - 2);
    }
}

/// Hashes of order up to [`MAX_ORDER`] fit comfortably in `u64`.
proof fn lemma_pow4_bound(n: nat)
    requires
        n <= 31,
    ensures
        1 <= pow4(n) <= 0x4000_0000_0000_0000,
    decreases n,
{
    lemma_pow4_pos(n);
    lemma_pow4_pow2(n);
    lemma2_to64();
    vstd::arithmetic::power2::lemma2_to64_rest();
    if 2 * n < 62 {
        lemma_pow2_strictly_increases(2 * n, 62);
    }
    assert(pow2(62) == 0x4000_0000_0000_0000);
}

/// The Z-order hash of a point in a box: two bits per level, the index of
/// the quadrant the point falls in, most significant level first.
pub open spec fn spec_zhash(b: Aabb2D, p: Point2D, depth: nat) -> int
    decreases depth,
{
    if depth == 0 {
        0
    } else {
        let q = b.spec_quadrant(p);
        quadrant_index(q) * pow4((depth - 1) as nat) + spec_zhash(
            b.spec_sub_aabb(q),
            p,
            (depth - 1) as nat,
        )
    }
}

/// A hash of `depth` levels takes fewer than `4^depth` values.
proof fn lemma_zhash_bounds(b: Aabb2D, p: Point2D, depth: nat)
    ensures
        0 <= spec_zhash(b, p, depth) < pow4(depth),
    decreases depth,
{
    if depth > 0 {
        let q = b.spec_quadrant(p);
        lemma_zhash_bounds(b.spec_sub_aabb(q), p, (depth - 1) as nat);
        lemma_pow4_pos((depth - 1) as nat);
        assert(0 <= quadrant_index(q) * pow4((depth - 1) as nat) + spec_zhash(
            b.spec_sub_aabb(q),
            p,
            (depth - 1) as nat,
        ) < pow4(depth)) by (nonlinear_arith)
            requires
                0 <= quadrant_index(q) <= 3,
                pow4((depth - 1) as nat) >= 1,
                0 <= spec_zhash(b.spec_sub_aabb(q), p, (depth - 1) as nat) < pow4(
                    (depth - 1) as nat,
                ),
                pow4(depth) == 4 * pow4((depth - 1) as nat);
    }
}

/// Descend the quadrants of a single point down to depth 0, extending the
/// accumulated hash prefix `cur` by the point's remaining quadrant bits.
fn point_hash_descend(b0: Aabb2D, p: Point2D, depth0: u32, cur0: u64) -> (h: u64)
    requires
        b0.wf(),
        p.in_range(),
        ((cur0 as int) + 1) * pow4(depth0 as nat) <= u64::MAX as int + 1,
    ensures
        h as int == (cur0 as int) * pow4(depth0 as nat) + spec_zhash(b0, p, depth0 as nat),
{
    let mut b = b0;
    let mut depth = depth0;
    let mut cur = cur0;
    while depth > 0
        invariant
            b.wf(),
            p.in_range(),
            ((cur as int) + 1) * pow4(depth as nat) <= u64::MAX as int + 1,
            (cur as int) * pow4(depth as nat) + spec_zhash(b, p, depth as nat) == (cur0 as int)
                * pow4(depth0 as nat) + spec_zhash(b0, p, depth0 as nat),
        decreases depth,
    {
        let q = b.quadrant(&p);
        let qi = quadrant_code(q);
        let ghost d1 = (depth - 1) as nat;
        proof {
            lemma_pow4_pos(d1);
            assert(pow4(depth as nat) == 4 * pow4(d1));
            assert((((cur as int) * 4 + qi) + 1) * pow4(d1) <= ((cur as int) + 1) * pow4(
                depth as nat,
            )) by (nonlinear_arith)
                requires
                    0 <= qi <= 3,
                    pow4(depth as nat) == 4 * pow4(d1),
                    pow4(d1) >= 1,
                    cur >= 0;
            assert(((cur as int) * 4 + qi) + 1 <= u64::MAX as int + 1) by (nonlinear_arith)
                requires
                    (((cur as int) * 4 + qi) + 1) * pow4(d1) <= u64::MAX as int + 1,
                    pow4(d1) >= 1,
                    0 <= qi,
                    cur >= 0;
            assert(((cur as int) * 4 + qi) * pow4(d1) + spec_zhash(b.spec_sub_aabb(q), p, d1) == (
            cur as int) * pow4(depth as nat) + spec_zhash(b, p, depth as nat)) by (nonlinear_arith)
                requires
                    pow4(depth as nat) == 4 * pow4(d1),
                    spec_zhash(b, p, depth as nat) == (qi as int) * pow4(d1) + spec_zhash(
                        b.spec_sub_aabb(q),
                        p,
                        d1,
                    ),
                    qi == quadrant_index(b.spec_quadrant(p));
        }
        cur = cur * 4 + qi;
        b = b.sub_aabb(q);
        depth = depth - 1;
    }
    cur
}


proof fn lemma_push_keeps_no_dup(s: Seq<usize>, x: usize)
    requires
        s.no_duplicates(),
        !s.contains(x),
    ensures
        s.push(x).no_duplicates(),
{
    let t = s.push(x);
    assert forall|i: int, j: int|
        0 <= i < t.len() && 0 <= j < t.len() && i != j implies t[i] != t[j] by {
        if i < s.len() && j < s.len() {
        } else if i == s.len() && j < s.len() {
            if t[i] == t[j] {
                assert(s.contains(s[j]));
            }
        } else if j == s.len() && i < s.len() {
            if t[i] == t[j] {
                assert(s.contains(s[i]));
            }
        }
    }
}

proof fn lemma_push_keeps_contains(s: Seq<usize>, x: usize, y: usize)
    requires
        s.contains(y),
    ensures
        s.push(x).contains(y),
{
    let i = choose|i: int| 0 <= i < s.len() && s[i] == y;
    assert(s.push(x)[i] == y);
}

/// Compute the hash of every listed point, recursing over quadrants; a
/// region holding at most one point is finished off by a direct descent.
#[verifier::rlimit(60)]
fn z_recurse(
    points: &Vec<Point2D>,
    idxs: &Vec<usize>,
    b: Aabb2D,
    depth: u32,
    cur: u64,
    hashes: &mut Vec<u64>,
)
    requires
        points_in_range(points@),
        b.wf(),
        old(hashes)@.len() == points@.len(),
        forall|j: int| 0 <= j < idxs@.len() ==> (#[trigger] idxs@[j]) < points@.len(),
        idxs@.no_duplicates(),
        ((cur as int) + 1) * pow4(depth as nat) <= u64::MAX as int + 1,
    ensures
        final(hashes)@.len() == old(hashes)@.len(),
        forall|i: int|
            0 <= i < old(hashes)@.len() && !idxs@.contains(i as usize) ==> final(hashes)@[i]
                == old(hashes)@[i],
        forall|j: int|
            0 <= j < idxs@.len() ==> final(hashes)@[(#[trigger] idxs@[j]) as int] == (cur as int)
                * pow4(depth as nat) + spec_zhash(b, points@[idxs@[j] as int], depth as nat),
    decreases depth,
{
    let n = points.len();
    if idxs.len() == 0 {
        return ;
    }
    if depth == 0 || idxs.len() == 1 {
        if depth == 0 {
            let mut j: usize = 0;
            while j < idxs.len()
                invariant
                    0 <= j <= idxs@.len(),
                    hashes@.len() == n,
                    n == points@.len(),
                    forall|t: int| 0 <= t < idxs@.len() ==> (#[trigger] idxs@[t]) < n,
                    forall|t: int| 0 <= t < j ==> hashes@[(#[trigger] idxs@[t]) as int] == cur,
                    forall|i: int|
                        0 <= i < n && !idxs@.subrange(0, j as int).contains(i as usize)
                            ==> hashes@[i] == old(hashes)@[i],
                decreases idxs@.len() - j,
            {
                hashes.set(idxs[j], cur);
                proof {
                    assert forall|i: int|
                        0 <= i < n && !idxs@.subrange(0, j + 1).contains(i as usize)
                            implies hashes@[i] == old(hashes)@[i] by {
                        assert(idxs@.subrange(0, j + 1)[j as int] == idxs@[j as int]);
                        if idxs@.subrange(0, j as int).contains(i as usize) {
                            let u = choose|u: int|
                                0 <= u < j && idxs@.subrange(0, j as int)[u] == i as usize;
                            assert(idxs@.subrange(0, j + 1)[u] == i as usize);
                        }
                    }
                }
                j = j + 1;
            }
            proof {
                assert(idxs@.subrange(0, idxs@.len() as int) =~= idxs@);
            }
        } else {
            let idx = idxs[0];
            let h = point_hash_descend(b, points[idx], depth, cur);
            hashes.set(idx, h);
            proof {
                assert forall|i: int|
                    0 <= i < n && !idxs@.contains(i as usize) implies hashes@[i] == old(
                    hashes,
                )@[i] by {
                    assert(i != idx as int);
                }
            }
        }
        return ;
    }
    // Split the indices by quadrant.
    let mut g0: Vec<usize> = Vec::new();
    let mut g1: Vec<usize> = Vec::new();
    let mut g2: Vec<usize> = Vec::new();
    let mut g3: Vec<usize> = Vec::new();
    let mut j: usize = 0;
    while j < idxs.len()
        invariant
            0 <= j <= idxs@.len(),
            n == points@.len(),
            points_in_range(points@),
            b.wf(),
            forall|t: int| 0 <= t < idxs@.len() ==> (#[trigger] idxs@[t]) < n,
            idxs@.no_duplicates(),
            forall|x: usize|
                g0@.contains(x) ==> idxs@.subrange(0, j as int).contains(x)
                    && b.spec_quadrant(points@[x as int]) == Quadrant::BottomLeft,
            forall|x: usize|
                g1@.contains(x) ==> idxs@.subrange(0, j as int).contains(x)
                    && b.spec_quadrant(points@[x as int]) == Quadrant::BottomRight,
            forall|x: usize|
                g2@.contains(x) ==> idxs@.subrange(0, j as int).contains(x)
                    && b.spec_quadrant(points@[x as int]) == Quadrant::TopLeft,
            forall|x: usize|
                g3@.contains(x) ==> idxs@.subrange(0, j as int).contains(x)
                    && b.spec_quadrant(points@[x as int]) == Quadrant::TopRight,
            g0@.no_duplicates(),
            g1@.no_duplicates(),
            g2@.no_duplicates(),
            g3@.no_duplicates(),
            forall|t: int|
                0 <= t < j ==> {
                    let x = #[trigger] idxs@[t];
                    g0@.contains(x) || g1@.contains(x) || g2@.contains(x) || g3@.contains(x)
                },
        decreases idxs@.len() - j,
    {
        let idx = idxs[j];
        let ghost pre0 = g0@;
        let ghost pre1 = g1@;
        let ghost pre2 = g2@;
        let ghost pre3 = g3@;
        proof {
            // The element being filed is not yet in any group.
            if idxs@.subrange(0, j as int).contains(idx) {
                let u = choose|u: int| 0 <= u < j && idxs@.subrange(0, j as int)[u] == idx;
                assert(idxs@[u] == idxs@[j as int]);
                assert(false);
            }
        }
        let q = b.quadrant(&points[idx]);
        proof {
            if pre0.contains(idx) || pre1.contains(idx) || pre2.contains(idx) || pre3.contains(
                idx,
            ) {
                assert(false);
            }
            lemma_push_keeps_no_dup(pre0, idx);
            lemma_push_keeps_no_dup(pre1, idx);
            lemma_push_keeps_no_dup(pre2, idx);
            lemma_push_keeps_no_dup(pre3, idx);
        }
        match q {
            Quadrant::BottomLeft => g0.push(idx),
            Quadrant::BottomRight => g1.push(idx),
            Quadrant::TopLeft => g2.push(idx),
            Quadrant::TopRight => g3.push(idx),
        }
        proof {
            assert forall|x: usize|
                idxs@.subrange(0, j as int).contains(x) implies idxs@.subrange(
                0,
                j + 1,
            ).contains(x) by {
                let u = choose|u: int| 0 <= u < j && idxs@.subrange(0, j as int)[u] == x;
                assert(idxs@.subrange(0, j + 1)[u] == x);
            }
            assert(idxs@.subrange(0, j + 1)[j as int] == idxs@[j as int]);
            assert forall|x: usize| g0@.contains(x) implies idxs@.subrange(0, j + 1).contains(x)
                && b.spec_quadrant(points@[x as int]) == Quadrant::BottomLeft by {
                if x == idx && g0@ != pre0 {
                } else {
                    let u = choose|u: int| 0 <= u < g0@.len() && g0@[u] == x;
                    if u < pre0.len() {
                        assert(pre0.contains(x));
                    }
                }
            }
            assert forall|x: usize| g1@.contains(x) implies idxs@.subrange(0, j + 1).contains(x)
                && b.spec_quadrant(points@[x as int]) == Quadrant::BottomRight by {
                if x == idx && g1@ != pre1 {
                } else {
                    let u = choose|u: int| 0 <= u < g1@.len() && g1@[u] == x;
                    if u < pre1.len() {
                        assert(pre1.contains(x));
                    }
                }
            }
            assert forall|x: usize| g2@.contains(x) implies idxs@.subrange(0, j + 1).contains(x)
                && b.spec_quadrant(points@[x as int]) == Quadrant::TopLeft by {
                if x == idx && g2@ != pre2 {
                } else {
                    let u = choose|u: int| 0 <= u < g2@.len() && g2@[u] == x;
                    if u < pre2.len() {
                        assert(pre2.contains(x));
                    }
                }
            }
            assert forall|x: usize| g3@.contains(x) implies idxs@.subrange(0, j + 1).contains(x)
                && b.spec_quadrant(points@[x as int]) == Quadrant::TopRight by {
                if x == idx && g3@ != pre3 {
                } else {
                    let u = choose|u: int| 0 <= u < g3@.len() && g3@[u] == x;
                    if u < pre3.len() {
                        assert(pre3.contains(x));
                    }
                }
            }
            assert forall|t: int|
                0 <= t < j + 1 implies {
                    let x = #[trigger] idxs@[t];
                    g0@.contains(x) || g1@.contains(x) || g2@.contains(x) || g3@.contains(x)
                } by {
                let x = idxs@[t];
                if t < j {
                    if pre0.contains(x) {
                        lemma_push_keeps_contains(pre0, idx, x);
                        if g0@ == pre0.push(idx) {
                        } else {
                            assert(g0@ == pre0);
                        }
                    } else if pre1.contains(x) {
                        lemma_push_keeps_contains(pre1, idx, x);
                        if g1@ == pre1.push(idx) {
                        } else {
                            assert(g1@ == pre1);
                        }
                    } else if pre2.contains(x) {
                        lemma_push_keeps_contains(pre2, idx, x);
                        if g2@ == pre2.push(idx) {
                        } else {
                            assert(g2@ == pre2);
                        }
                    } else {
                        assert(pre3.contains(x));
                        lemma_push_keeps_contains(pre3, idx, x);
                        if g3@ == pre3.push(idx) {
                        } else {
                            assert(g3@ == pre3);
                        }
                    }
                } else {
                    assert(x == idx);
                    assert(g0@.last() == idx || g1@.last() == idx || g2@.last() == idx
                        || g3@.last() == idx);
                }
            }
        }
        j = j + 1;
    }
    proof {
        assert(idxs@.subrange(0, idxs@.len() as int) =~= idxs@);
    }
    let ghost d1 = (depth - 1) as nat;
    proof {
        lemma_pow4_pos(d1);
        assert((((cur as int) * 4 + 1) * pow4(d1) <= ((cur as int) + 1) * pow4(depth as nat))
            && (((cur as int) * 4 + 2) * pow4(d1) <= ((cur as int) + 1) * pow4(depth as nat))
            && (((cur as int) * 4 + 3) * pow4(d1) <= ((cur as int) + 1) * pow4(depth as nat))
            && (((cur as int) * 4 + 4) * pow4(d1) <= ((cur as int) + 1) * pow4(depth as nat)))
            by (nonlinear_arith)
            requires
                pow4(depth as nat) == 4 * pow4(d1),
                pow4(d1) >= 1,
                cur >= 0;
        assert(((cur as int) * 4 + 3) + 1 <= u64::MAX as int + 1) by (nonlinear_arith)
            requires
                (((cur as int) * 4 + 3) + 1) * pow4(d1) <= u64::MAX as int + 1,
                pow4(d1) >= 1,
                cur >= 0;
    }
    proof {
        assert forall|t: int| 0 <= t < g0@.len() implies (#[trigger] g0@[t]) < n by {
            assert(g0@.contains(g0@[t]));
        }
        assert forall|t: int| 0 <= t < g1@.len() implies (#[trigger] g1@[t]) < n by {
            assert(g1@.contains(g1@[t]));
        }
        assert forall|t: int| 0 <= t < g2@.len() implies (#[trigger] g2@[t]) < n by {
            assert(g2@.contains(g2@[t]));
        }
        assert forall|t: int| 0 <= t < g3@.len() implies (#[trigger] g3@[t]) < n by {
            assert(g3@.contains(g3@[t]));
        }
    }
    let sub_cur = cur * 4;
    let ghost mid0 = hashes@;
    z_recurse(points, &g0, b.sub_aabb(Quadrant::BottomLeft), depth - 1, sub_cur, hashes);
    let ghost mid1 = hashes@;
    z_recurse(points, &g1, b.sub_aabb(Quadrant::BottomRight), depth - 1, sub_cur + 1, hashes);
    let ghost mid2 = hashes@;
    z_recurse(points, &g2, b.sub_aabb(Quadrant::TopLeft), depth - 1, sub_cur + 2, hashes);
    let ghost mid3 = hashes@;
    z_recurse(points, &g3, b.sub_aabb(Quadrant::TopRight), depth - 1, sub_cur + 3, hashes);
    proof {
        assert forall|i: int|
            0 <= i < n && !idxs@.contains(i as usize) implies hashes@[i] == old(hashes)@[i] by {
            assert(!g0@.contains(i as usize));
            assert(!g1@.contains(i as usize));
            assert(!g2@.contains(i as usize));
            assert(!g3@.contains(i as usize));
        }
        assert forall|t: int|
            0 <= t < idxs@.len() implies hashes@[(#[trigger] idxs@[t]) as int] == (cur as int)
            * pow4(depth as nat) + spec_zhash(b, points@[idxs@[t] as int], depth as nat) by {
            let x = idxs@[t];
            let p = points@[x as int];
            let q = b.spec_quadrant(p);
            assert(spec_zhash(b, p, depth as nat) == quadrant_index(q) * pow4(d1) + spec_zhash(
                b.spec_sub_aabb(q),
                p,
                d1,
            ));
            assert((cur as int) * pow4(depth as nat) + quadrant_index(q) * pow4(d1) == ((
            cur as int) * 4 + quadrant_index(q)) * pow4(d1)) by (nonlinear_arith)
                requires pow4(depth as nat) == 4 * pow4(d1);
            if g0@.contains(x) {
                let u = choose|u: int| 0 <= u < g0@.len() && g0@[u] == x;
                assert(mid1[x as int] == (sub_cur as int) * pow4(d1) + spec_zhash(
                    b.spec_sub_aabb(Quadrant::BottomLeft),
                    p,
                    d1,
                ));
                assert(!g1@.contains(x) && !g2@.contains(x) && !g3@.contains(x));
            } else if g1@.contains(x) {
                let u = choose|u: int| 0 <= u < g1@.len() && g1@[u] == x;
                assert(!g2@.contains(x) && !g3@.contains(x));
            } else if g2@.contains(x) {
                let u = choose|u: int| 0 <= u < g2@.len() && g2@[u] == x;
                assert(!g3@.contains(x));
            } else {
                assert(g3@.contains(x));
                let u = choose|u: int| 0 <= u < g3@.len() && g3@[u] == x;
            }
        }
    }
}

/// The Z-order hash of every point, for a curve of the given order, in the
/// bounding box of the whole set.
pub fn z_hashes(points: &Vec<Point2D>, order: u32) -> (hashes: Vec<u64>)
    requires
        points@.len() >= 1,
        points_in_range(points@),
        order <= MAX_ORDER,
    ensures
        hashes@.len() == points@.len(),
        forall|i: int|
            0 <= i < points@.len() ==> #[trigger] hashes@[i] as int == spec_zhash(
                Aabb2D::spec_from_points(points@),
                points@[i],
                order as nat,
            ),
{
    let n = points.len();
    let b = Aabb2D::from_points(points);
    let mut hashes: Vec<u64> = Vec::new();
    let mut i: usize = 0;
    while i < n
        invariant
            0 <= i <= n,
            hashes@.len() == i,
        decreases n - i,
    {
        hashes.push(0);
        i = i + 1;
    }
    let mut idxs: Vec<usize> = Vec::new();
    let mut i: usize = 0;
    while i < n
        invariant
            0 <= i <= n,
            idxs@.len() == i,
            forall|t: int| 0 <= t < i ==> #[trigger] idxs@[t] == t as usize,
        decreases n - i,
    {
        idxs.push(i);
        i = i + 1;
    }
    proof {
        assert(idxs@.no_duplicates());
        lemma_pow4_bound(order as nat);
    }
    z_recurse(points, &idxs, b, order, 0, &mut hashes);
    proof {
        assert forall|i: int|
            0 <= i < points@.len() implies #[trigger] hashes@[i] as int == spec_zhash(
            Aabb2D::spec_from_points(points@),
            points@[i],
            order as nat,
        ) by {
            assert(idxs@[i] == i as usize);
        }
    }
    hashes
}


/// `perm` lists the point indices in Z-order: ascending hash, ties broken
/// by the original index.
pub open spec fn zorder_sorted(perm: Seq<usize>, points: Seq<Point2D>, order: nat) -> bool {
    &&& is_permutation(perm, points.len())
    &&& forall|a: int, b: int|
        0 <= a < b < perm.len() ==> {
            let ha = spec_zhash(
                Aabb2D::spec_from_points(points),
                points[(#[trigger] perm[a]) as int],
                order,
            );
            let hb = spec_zhash(
                Aabb2D::spec_from_points(points),
                points[(#[trigger] perm[b]) as int],
                order,
            );
            ha < hb || (ha == hb && perm[a] < perm[b])
        }
}

/// A bounding box of a point set that can be recursively split to order
/// the points along the Z curve.
pub struct ZCurveQuadtree {
    points: Vec<Point2D>,
    weights: Vec<u64>,
}

impl ZCurveQuadtree {
    /// The points the quadtree was built from.
    pub closed spec fn spec_points(&self) -> Seq<Point2D> {
        self.points@
    }

    /// The weights the quadtree was built from.
    pub closed spec fn spec_weights(&self) -> Seq<u64> {
        self.weights@
    }

    /// The stored slices are consistent and on the grid.
    pub open spec fn wf(&self) -> bool {
        &&& self.spec_points().len() == self.spec_weights().len()
        &&& self.spec_points().len() >= 1
        &&& points_in_range(self.spec_points())
    }

    /// Build a quadtree over a non-empty point set.
    pub fn new(points: Vec<Point2D>, weights: Vec<u64>) -> (r: ZCurveQuadtree)
        requires
            points@.len() == weights@.len(),
            points@.len() >= 1,
            points_in_range(points@),
        ensures
            r.wf(),
            r.spec_points() == points@,
            r.spec_weights() == weights@,
    {
        ZCurveQuadtree { points, weights }
    }

    /// Reorder the points (with their weights) along the Z curve: the
    /// result lists the same points, sorted by their Z-order hash at the
    /// deepest supported order, ties broken by input index.
    pub fn reorder(self) -> (r: (Vec<Point2D>, Vec<u64>))
        requires
            self.wf(),
        ensures
            r.0@.len() == self.spec_points().len(),
            r.1@.len() == self.spec_points().len(),
            exists|perm: Seq<usize>|
                {
                    &&& #[trigger] zorder_sorted(perm, self.spec_points(), MAX_ORDER as nat)
                    &&& forall|j: int|
                        0 <= j < perm.len() ==> r.0@[j] == self.spec_points()[(
                        #[trigger] perm[j]) as int] && r.1@[j] == self.spec_weights()[perm[j] as int]
                },
    {
        let n = self.points.len();
        let hashes = z_hashes(&self.points, MAX_ORDER);
        let perm = sort_indices_by_key(&hashes);
        let mut out_points: Vec<Point2D> = Vec::new();
        let mut out_weights: Vec<u64> = Vec::new();
        let mut j: usize = 0;
        while j < n
            invariant
                0 <= j <= n,
                n == self.points@.len(),
                n == self.weights@.len(),
                perm@.len() == n,
                forall|t: int| 0 <= t < n ==> (#[trigger] perm@[t]) < n,
                out_points@.len() == j,
                out_weights@.len() == j,
                forall|t: int|
                    0 <= t < j ==> out_points@[t] == self.points@[(#[trigger] perm@[t]) as int]
                        && out_weights@[t] == self.weights@[perm@[t] as int],
            decreases n - j,
        {
            out_points.push(self.points[perm[j]]);
            out_weights.push(self.weights[perm[j]]);
            j = j + 1;
        }
        proof {
            let b = Aabb2D::spec_from_points(self.points@);
            assert(zorder_sorted(perm@, self.spec_points(), MAX_ORDER as nat)) by {
                assert forall|x: int, y: int| 0 <= x < y < perm@.len() implies {
                    let ha = spec_zhash(b, self.points@[(#[trigger] perm@[x]) as int],
                        MAX_ORDER as nat);
                    let hb = spec_zhash(b, self.points@[(#[trigger] perm@[y]) as int],
                        MAX_ORDER as nat);
                    ha < hb || (ha == hb && perm@[x] < perm@[y])
                } by {
                    assert(crate::sort::pair_le(
                        (hashes@[perm@[x] as int], perm@[x]),
                        (hashes@[perm@[y] as int], perm@[y]),
                    ));
                    assert(perm@[x] != perm@[y]);
                }
            }
        }
        (out_points, out_weights)
    }
}

/// Partition the points into `num_partitions` runs of the Z-ordering with
/// approximately equal total weight.  Exactly `num_partitions` identifiers
/// are minted, all by this call, and every point is labelled with one of
/// them, so at most `num_partitions` distinct parts come out.
#[verifier::rlimit(100)]
pub fn z_curve_partition(
    points: &Vec<Point2D>,
    weights: &Vec<u64>,
    num_partitions: usize,
    order: u32,
    minter: &mut PidMinter,
) -> (ids: Vec<Pid>)
    requires
        points@.len() == weights@.len(),
        points@.len() <= MAX_POINTS,
        points_in_range(points@),
        weights_in_range(weights@),
        1 <= num_partitions,
        order <= MAX_ORDER,
        old(minter).spec_next() + num_partitions <= u64::MAX,
    ensures
        ids@.len() == points@.len(),
        forall|i: int|
            0 <= i < ids@.len() ==> !old(minter).minted(#[trigger] ids@[i])
                && final(minter).minted(ids@[i]),
        forall|i: int|
            0 <= i < ids@.len() ==> old(minter).spec_next() <= (#[trigger] ids@[i]).spec_id()
                < old(minter).spec_next() + num_partitions,
        final(minter).spec_next() == old(minter).spec_next() + num_partitions,
        points@.len() > 0 ==> exists|perm: Seq<usize>, pos: Seq<usize>, pids: Seq<Pid>|
            zorder_sorted(perm, points@, order as nat)
                && #[trigger] crate::multi_jagged::run_assignment(
                weights@,
                ids@,
                num_partitions as int,
                perm,
                pos,
                pids,
            ),
{
    let ghost m0 = *minter;
    let n = points.len();
    let k = num_partitions;
    let mut pids: Vec<Pid> = Vec::new();
    let mut t: usize = 0;
    while t < k
        invariant
            0 <= t <= k,
            pids@.len() == t,
            m0.spec_next() + k <= u64::MAX,
            minter.spec_next() == m0.spec_next() + t,
            forall|u: int|
                0 <= u < t ==> !m0.minted(#[trigger] pids@[u]) && minter.minted(pids@[u])
                    && m0.spec_next() <= pids@[u].spec_id() < m0.spec_next() + k,
            forall|u: int| 0 <= u < t ==> (#[trigger] pids@[u]).spec_id() == m0.spec_next() + u,
        decreases k - t,
    {
        let ghost before = *minter;
        let p = minter.fresh();
        proof {
            crate::pid::lemma_unminted_monotone(m0, before, p);
            crate::pid::lemma_minted_window(before, *minter, p);
            assert forall|u: int| 0 <= u < t implies !m0.minted(#[trigger] pids@[u])
                && minter.minted(pids@[u]) && m0.spec_next() <= pids@[u].spec_id()
                < m0.spec_next() + k by {
                crate::pid::lemma_minted_monotone(before, *minter, pids@[u]);
            }
        }
        pids.push(p);
        t = t + 1;
    }
    if n == 0 {
        return Vec::new();
    }
    let hashes = z_hashes(points, order);
    let perm = sort_indices_by_key(&hashes);
    proof {
        // The permutation orders the points along the curve.
        assert(zorder_sorted(perm@, points@, order as nat)) by {
            assert forall|x: int, y: int| 0 <= x < y < perm@.len() implies {
                let ha = spec_zhash(
                    Aabb2D::spec_from_points(points@),
                    points@[(#[trigger] perm@[x]) as int],
                    order as nat,
                );
                let hb = spec_zhash(
                    Aabb2D::spec_from_points(points@),
                    points@[(#[trigger] perm@[y]) as int],
                    order as nat,
                );
                ha < hb || (ha == hb && perm@[x] < perm@[y])
            } by {
                assert(crate::sort::pair_le(
                    (hashes@[perm@[x] as int], perm@[x]),
                    (hashes@[perm@[y] as int], perm@[y]),
                ));
                assert(perm@[x] != perm@[y]);
            }
        }
    }
    let mut pw: Vec<u64> = Vec::new();
    let mut j: usize = 0;
    while j < n
        invariant
            0 <= j <= n,
            n == points@.len(),
            n == weights@.len(),
            perm@.len() == n,
            forall|t: int| 0 <= t < n ==> (#[trigger] perm@[t]) < n,
            weights_in_range(weights@),
            pw@.len() == j,
            forall|t: int| 0 <= t < j ==> #[trigger] pw@[t] == weights@[perm@[t] as int],
            forall|t: int| 0 <= t < j ==> #[trigger] pw@[t] <= crate::split::WEIGHT_LIMIT,
        decreases n - j,
    {
        pw.push(weights[perm[j]]);
        j = j + 1;
    }
    proof {
        lemma_total_bounded(pw@);
        assert(pw@ =~= crate::split::permuted_weights(weights@, perm@));
    }
    let positions = split_positions(&pw, k);
    let mut ids: Vec<Pid> = Vec::new();
    let mut j: usize = 0;
    while j < n
        invariant
            0 <= j <= n,
            ids@.len() == j,
            pids@.len() == k,
            1 <= k,
            forall|t: int| 0 <= t < j ==> pids@.contains(#[trigger] ids@[t]),
        decreases n - j,
    {
        let p = pids[0];
        ids.push(p);
        proof {
            assert(pids@.contains(pids@[0]));
        }
        j = j + 1;
    }
    let mut r: usize = 0;
    let mut run: usize = 0;
    while r < n
        invariant
            0 <= r <= n,
            0 <= run <= k - 1,
            n == points@.len(),
            ids@.len() == n,
            pids@.len() == k,
            1 <= k,
            perm@.len() == n,
            perm@.no_duplicates(),
            positions@.len() == k - 1,
            forall|t: int| 0 <= t < n ==> (#[trigger] perm@[t]) < n,
            forall|t: int| 0 <= t < k - 1 ==> (#[trigger] positions@[t]) <= n,
            forall|t: int| 0 <= t < k - 2 ==> (#[trigger] positions@[t]) <= positions@[t + 1],
            forall|t: int| 0 <= t < n ==> pids@.contains(#[trigger] ids@[t]),
            forall|t: int| 0 <= t < run ==> (#[trigger] positions@[t]) <= r,
            run < k - 1 ==> r <= positions@[run as int],
            forall|q: int|
                0 <= q < r ==> exists|j: int|
                    0 <= j <= positions@.len() && crate::multi_jagged::cut_lo(positions@, j) <= q
                        < crate::multi_jagged::cut_hi(positions@, j, n as int) && ids@[(
                    #[trigger] perm@[q]) as int] == #[trigger] pids@[j],
        decreases n - r,
    {
        while run < k - 1 && positions[run] <= r
            invariant
                0 <= run <= k - 1,
                positions@.len() == k - 1,
                forall|t: int| 0 <= t < run ==> (#[trigger] positions@[t]) <= r,
            decreases k - 1 - run,
        {
            run = run + 1;
        }
        let ghost pre_ids = ids@;
        let p = pids[run];
        ids.set(perm[r], p);
        proof {
            assert(pids@.contains(pids@[run as int]));
            assert(crate::multi_jagged::cut_lo(positions@, run as int) <= r
                < crate::multi_jagged::cut_hi(positions@, run as int, n as int));
            assert forall|q: int|
                0 <= q < r + 1 implies exists|j: int|
                0 <= j <= positions@.len() && crate::multi_jagged::cut_lo(positions@, j) <= q
                    < crate::multi_jagged::cut_hi(positions@, j, n as int) && ids@[(
            #[trigger] perm@[q]) as int] == #[trigger] pids@[j] by {
                if q < r {
                    let j = choose|j: int|
                        0 <= j <= positions@.len() && crate::multi_jagged::cut_lo(positions@, j)
                            <= q < crate::multi_jagged::cut_hi(positions@, j, n as int)
                            && pre_ids[(#[trigger] perm@[q]) as int] == #[trigger] pids@[j];
                    assert(perm@[q] != perm@[r as int]);
                    assert(ids@[perm@[q] as int] == pre_ids[perm@[q] as int]);
                } else {
                    assert(ids@[perm@[q] as int] == pids@[run as int]);
                }
            }
        }
        r = r + 1;
    }
    proof {
        assert forall|i: int|
            0 <= i < ids@.len() implies !m0.minted(#[trigger] ids@[i]) && minter.minted(ids@[i])
            && m0.spec_next() <= ids@[i].spec_id() < m0.spec_next() + k by {
            let u = choose|u: int| 0 <= u < pids@.len() && pids@[u] == ids@[i];
        }
        if n > 0 {
            assert forall|j1: int, j2: int| 0 <= j1 < j2 < k implies pids@[j1] != pids@[j2] by {
                assert(pids@[j1].spec_id() == m0.spec_next() + j1);
                assert(pids@[j2].spec_id() == m0.spec_next() + j2);
            }
            assert(crate::multi_jagged::run_assignment(
                weights@,
                ids@,
                k as int,
                perm@,
                positions@,
                pids@,
            ));
            assert(zorder_sorted(perm@, points@, order as nat)
                && crate::multi_jagged::run_assignment(
                weights@,
                ids@,
                k as int,
                perm@,
                positions@,
                pids@,
            ));
        }
    }
    ids
}


/// The midpoint of a translated pair is the translated midpoint.
proof fn lemma_mid_translate(a: int, b: int, d: int)
    ensures
        crate::geometry::spec_mid(a + d, b + d) == crate::geometry::spec_mid(a, b) + d,
{
    vstd::arithmetic::div_mod::lemma_fundamental_div_mod(a + b, 2);
    let q = (a + b) / 2;
    let r = (a + b) % 2;
    vstd::arithmetic::div_mod::lemma_fundamental_div_mod_converse((a + d) + (b + d), 2, q + d, r);
}

/// The midpoint lies between the pair.
proof fn lemma_mid_bounds(a: int, b: int)
    requires
        a <= b,
    ensures
        a <= crate::geometry::spec_mid(a, b) <= b,
{
    vstd::arithmetic::div_mod::lemma_fundamental_div_mod(a + b, 2);
}

/// A quadrant sub-box of a well-formed box is well-formed.
proof fn lemma_sub_aabb_wf(b: Aabb2D, q: Quadrant)
    requires
        b.wf(),
    ensures
        b.spec_sub_aabb(q).wf(),
{
    lemma_mid_bounds(b.min.x as int, b.max.x as int);
    lemma_mid_bounds(b.min.y as int, b.max.y as int);
}

/// Translating a box and a point together leaves the whole quadrant
/// descent, and with it the Z-order hash, unchanged.
proof fn lemma_zhash_translate(
    b: Aabb2D,
    bt: Aabb2D,
    p: Point2D,
    pt: Point2D,
    depth: nat,
    dx: int,
    dy: int,
)
    requires
        b.wf(),
        bt.wf(),
        bt.min.x as int == b.min.x + dx,
        bt.min.y as int == b.min.y + dy,
        bt.max.x as int == b.max.x + dx,
        bt.max.y as int == b.max.y + dy,
        pt.x as int == p.x + dx,
        pt.y as int == p.y + dy,
    ensures
        spec_zhash(bt, pt, depth) == spec_zhash(b, p, depth),
    decreases depth,
{
    if depth > 0 {
        assert(bt.spec_quadrant(pt) == b.spec_quadrant(p));
        let q = b.spec_quadrant(p);
        let sb = b.spec_sub_aabb(q);
        let sbt = bt.spec_sub_aabb(q);
        lemma_sub_aabb_wf(b, q);
        lemma_sub_aabb_wf(bt, q);
        lemma_mid_translate(b.min.x as int, b.max.x as int, dx);
        lemma_mid_translate(b.min.y as int, b.max.y as int, dy);
        lemma_mid_bounds(b.min.x as int, b.max.x as int);
        lemma_mid_bounds(b.min.y as int, b.max.y as int);
        lemma_mid_bounds(bt.min.x as int, bt.max.x as int);
        lemma_mid_bounds(bt.min.y as int, bt.max.y as int);
        assert(sbt.min.x as int == sb.min.x + dx && sbt.min.y as int == sb.min.y + dy
            && sbt.max.x as int == sb.max.x + dx && sbt.max.y as int == sb.max.y + dy);
        lemma_zhash_translate(sb, sbt, p, pt, (depth - 1) as nat, dx, dy);
    }
}

/// A non-empty in-range point set has a well-formed bounding box.
proof fn lemma_from_points_wf(points: Seq<Point2D>)
    requires
        points.len() >= 1,
        points_in_range(points),
    ensures
        Aabb2D::spec_from_points(points).wf(),
    decreases points.len(),
{
    if points.len() <= 1 {
        assert(points[0].in_range());
    } else {
        assert(points_in_range(points.drop_last())) by {
            assert forall|i: int|
                0 <= i < points.len() - 1 implies (#[trigger] points.drop_last()[i]).in_range()
                by {
                assert(points.drop_last()[i] == points[i]);
            }
        }
        lemma_from_points_wf(points.drop_last());
        assert(points.last().in_range());
    }
}

/// Law: the Z-order hash of a point is invariant under a translation of
/// the whole point set, so the Z-ordering of the translated set is the
/// ordering of the original.
pub proof fn lemma_zcurve_translate_invariant(
    ps: Seq<Point2D>,
    qs: Seq<Point2D>,
    i: int,
    order: nat,
    dx: int,
    dy: int,
)
    requires
        ps.len() == qs.len(),
        ps.len() >= 1,
        0 <= i < ps.len(),
        points_in_range(ps),
        points_in_range(qs),
        forall|t: int|
            0 <= t < ps.len() ==> (#[trigger] qs[t]).x as int == ps[t].x + dx && qs[t].y as int
                == ps[t].y + dy,
    ensures
        spec_zhash(Aabb2D::spec_from_points(qs), qs[i], order) == spec_zhash(
            Aabb2D::spec_from_points(ps),
            ps[i],
            order,
        ),
{
    assert forall|t: int|
        0 <= t < ps.len() implies (#[trigger] qs[t]).x as int == 1 * (ps[t].x as int) + dx
        && qs[t].y as int == 1 * (ps[t].y as int) + dy by {
        assert(1 * (ps[t].x as int) == ps[t].x as int) by (nonlinear_arith);
        assert(1 * (ps[t].y as int) == ps[t].y as int) by (nonlinear_arith);
    }
    crate::geometry::lemma_from_points_affine(ps, qs, 1, dx, 1, dy);
    lemma_from_points_wf(ps);
    lemma_from_points_wf(qs);
    let bp = Aabb2D::spec_from_points(ps);
    let bq = Aabb2D::spec_from_points(qs);
    assert(1 * (bp.min.x as int) == bp.min.x as int && 1 * (bp.max.x as int) == bp.max.x as int
        && 1 * (bp.min.y as int) == bp.min.y as int && 1 * (bp.max.y as int)
        == bp.max.y as int) by (nonlinear_arith);
    lemma_zhash_translate(bp, bq, ps[i], qs[i], order, dx, dy);
}

} // verus!
