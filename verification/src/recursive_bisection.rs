//! Recursive bisection: axis-aligned (RCB) and inertial (RIB).
//!
//! For `num_iter` levels each current subset is cut in two halves of equal
//! total weight at the weighted median of a sort key.  RCB keys on the
//! coordinates, alternating between the x and the y axis; RIB keys on the
//! projection onto the subset's own principal axis of inertia.  Ties on
//! identical keys are resolved by input index, and a subset whose keys are
//! all equal (all points coincident along the key) stays a single part for
//! the remainder of the recursion.

use vstd::prelude::*;
use vstd::arithmetic::power2::pow2;
use vstd::arithmetic::power2::lemma_pow2_unfold;
use vstd::arithmetic::power2::lemma_pow2_pos;
use crate::geometry::Point2D;
use crate::geometry::isqrt;
use crate::geometry::points_in_range;
use crate::pid::Pid;
use crate::pid::PidMinter;
use crate::pid::lemma_minted_monotone;
use crate::pid::lemma_minted_window;
use crate::pid::lemma_unminted_monotone;
use crate::sort::coord_key;
use crate::sort::sort_indices_by_key;
use crate::split::MAX_POINTS;
use crate::split::lemma_total_bounded;
use crate::split::split_positions;
use crate::split::weights_in_range;

verus! {

/// Label every listed index with the given part identifier.
fn assign_pid(perm: &Vec<usize>, p: Pid, ids: &mut Vec<Pid>)
    requires
        forall|j: int| 0 <= j < perm@.len() ==> (#[trigger] perm@[j]) < old(ids)@.len(),
    ensures
        final(ids)@.len() == old(ids)@.len(),
        forall|i: int|
            0 <= i < old(ids)@.len() && !perm@.contains(i as usize) ==> final(ids)@[i] == old(
                ids,
            )@[i],
        forall|j: int| 0 <= j < perm@.len() ==> final(ids)@[(#[trigger] perm@[j]) as int] == p,
{
    let n = ids.len();
    let mut j: usize = 0;
    while j < perm.len()
        invariant
            0 <= j <= perm@.len(),
            ids@.len() == n,
            forall|t: int| 0 <= t < perm@.len() ==> (#[trigger] perm@[t]) < n,
            forall|t: int| 0 <= t < j ==> ids@[(#[trigger] perm@[t]) as int] == p,
            forall|i: int|
                0 <= i < n && !perm@.subrange(0, j as int).contains(i as usize) ==> ids@[i]
                    == old(ids)@[i],
        decreases perm@.len() - j,
    {
        ids.set(perm[j], p);
        proof {
            assert forall|i: int|
                0 <= i < n && !perm@.subrange(0, j + 1).contains(i as usize) implies ids@[i]
                == old(ids)@[i] by {
                assert(perm@.subrange(0, j + 1)[j as int] == perm@[j as int]);
                if perm@.subrange(0, j as int).contains(i as usize) {
                    let u = choose|u: int|
                        0 <= u < j && perm@.subrange(0, j as int)[u] == i as usize;
                    assert(perm@.subrange(0, j + 1)[u] == i as usize);
                }
            }
        }
        j = j + 1;
    }
    proof {
        assert(perm@.subrange(0, perm@.len() as int) =~= perm@);
    }
}

/// The sort key of each listed point along a coordinate axis.
fn axis_keys(points: &Vec<Point2D>, perm: &Vec<usize>, x_axis: bool) -> (keys: Vec<u64>)
    requires
        forall|j: int| 0 <= j < perm@.len() ==> (#[trigger] perm@[j]) < points@.len(),
    ensures
        keys@.len() == perm@.len(),
{
    let mut keys: Vec<u64> = Vec::new();
    let mut j: usize = 0;
    while j < perm.len()
        invariant
            0 <= j <= perm@.len(),
            keys@.len() == j,
            forall|t: int| 0 <= t < perm@.len() ==> (#[trigger] perm@[t]) < points@.len(),
        decreases perm@.len() - j,
    {
        let p = points[perm[j]];
        keys.push(coord_key(if x_axis { p.x } else { p.y }));
        j = j + 1;
    }
    keys
}

/// The sort key of each listed point along the subset's principal axis of
/// inertia.  The axis is the leading eigenvector of the subset's
/// covariance sums, computed in fixed-point arithmetic; the key of a point
/// is its scalar product with that direction, mapped order-preservingly to
/// `u64`.
fn inertial_keys(points: &Vec<Point2D>, perm: &Vec<usize>) -> (keys: Vec<u64>)
    requires
        points_in_range(points@),
        forall|j: int| 0 <= j < perm@.len() ==> (#[trigger] perm@[j]) < points@.len(),
        perm@.len() >= 1,
        perm@.len() <= MAX_POINTS,
    ensures
        keys@.len() == perm@.len(),
{
    let m = perm.len();
    // Mean of the subset, rounded toward zero.
    let mut sx: i128 = 0;
    let mut sy: i128 = 0;
    let mut j: usize = 0;
    while j < m
        invariant
            0 <= j <= m,
            m == perm@.len(),
            m <= MAX_POINTS,
            points_in_range(points@),
            forall|t: int| 0 <= t < m ==> (#[trigger] perm@[t]) < points@.len(),
            -((j as int) * 0x4000_0000) <= sx as int <= (j as int) * 0x4000_0000,
            -((j as int) * 0x4000_0000) <= sy as int <= (j as int) * 0x4000_0000,
        decreases m - j,
    {
        let p = points[perm[j]];
        proof {
            assert((j as int) * 0x4000_0000 + 0x4000_0000 == ((j + 1) as int) * 0x4000_0000)
                by (nonlinear_arith);
            assert((m as int) * 0x4000_0000 <= 0xFFFF_FFFF * 0x4000_0000) by (nonlinear_arith)
                requires m as int <= 0xFFFF_FFFF;
            assert((j as int) * 0x4000_0000 <= (m as int) * 0x4000_0000) by (nonlinear_arith)
                requires j < m;
        }
        sx = sx + p.x as i128;
        sy = sy + p.y as i128;
        j = j + 1;
    }
    proof {
        assert((m as int) * 0x4000_0000 <= 0xFFFF_FFFF * 0x4000_0000) by (nonlinear_arith)
            requires m as int <= 0xFFFF_FFFF;
    }
    let ux: u128 = (sx + (m as i128) * 0x4000_0000) as u128;
    let uy: u128 = (sy + (m as i128) * 0x4000_0000) as u128;
    proof {
        assert(0 <= sx + (m as i128) * 0x4000_0000 <= (m as int) * 0x8000_0000 && 0 <= sy + (
        m as i128) * 0x4000_0000 <= (m as int) * 0x8000_0000) by (nonlinear_arith)
            requires
                -((m as int) * 0x4000_0000) <= sx as int <= (m as int) * 0x4000_0000,
                -((m as int) * 0x4000_0000) <= sy as int <= (m as int) * 0x4000_0000;
        vstd::arithmetic::div_mod::lemma_fundamental_div_mod(ux as int, m as int);
        vstd::arithmetic::div_mod::lemma_fundamental_div_mod(uy as int, m as int);
        assert(0 <= (ux as int) / (m as int) <= 0x8000_0000 && 0 <= (uy as int) / (m as int)
            <= 0x8000_0000) by (nonlinear_arith)
            requires
                0 <= ux as int <= (m as int) * 0x8000_0000,
                0 <= uy as int <= (m as int) * 0x8000_0000,
                ux as int == (m as int) * ((ux as int) / (m as int)) + (ux as int) % (m as int),
                uy as int == (m as int) * ((uy as int) / (m as int)) + (uy as int) % (m as int),
                0 <= (ux as int) % (m as int) < m as int,
                0 <= (uy as int) % (m as int) < m as int,
                1 <= m as int;
    }
    let cx: i64 = ((ux / (m as u128)) as i64) - 0x4000_0000;
    let cy: i64 = ((uy / (m as u128)) as i64) - 0x4000_0000;
    // Covariance sums around the mean.
    let mut a: i128 = 0;
    let mut b: i128 = 0;
    let mut c: i128 = 0;
    let mut j: usize = 0;
    while j < m
        invariant
            0 <= j <= m,
            m == perm@.len(),
            m <= MAX_POINTS,
            points_in_range(points@),
            forall|t: int| 0 <= t < m ==> (#[trigger] perm@[t]) < points@.len(),
            -0x4000_0000 <= cx as int <= 0x4000_0000,
            -0x4000_0000 <= cy as int <= 0x4000_0000,
            0 <= a as int <= (j as int) * 0x10_0000_0000_0000_0000,
            0 <= c as int <= (j as int) * 0x10_0000_0000_0000_0000,
            -((j as int) * 0x10_0000_0000_0000_0000) <= b as int <= (j as int)
                * 0x10_0000_0000_0000_0000,
        decreases m - j,
    {
        let p = points[perm[j]];
        let dx: i128 = p.x as i128 - cx as i128;
        let dy: i128 = p.y as i128 - cy as i128;
        proof {
            assert(0 <= dx * dx <= 0x10_0000_0000_0000_0000 && 0 <= dy * dy
                <= 0x10_0000_0000_0000_0000 && -0x10_0000_0000_0000_0000 <= dx * dy
                <= 0x10_0000_0000_0000_0000) by (nonlinear_arith)
                requires
                    -0x1_0000_0000 <= dx as int <= 0x1_0000_0000,
                    -0x1_0000_0000 <= dy as int <= 0x1_0000_0000;
            assert((j as int) * 0x10_0000_0000_0000_0000 + 0x10_0000_0000_0000_0000 == ((j
                + 1) as int) * 0x10_0000_0000_0000_0000) by (nonlinear_arith);
            assert((j as int) * 0x10_0000_0000_0000_0000 <= (m as int)
                * 0x10_0000_0000_0000_0000 && (m as int) * 0x10_0000_0000_0000_0000
                <= 0xFFFF_FFFF * 0x10_0000_0000_0000_0000) by (nonlinear_arith)
                requires j < m && m as int <= 0xFFFF_FFFF;
        }
        a = a + dx * dx;
        b = b + dx * dy;
        c = c + dy * dy;
        j = j + 1;
    }
    // Reduce the sums until the direction fits the fixed-point range.
    proof {
        assert((m as int) * 0x10_0000_0000_0000_0000 <= 0xFFFF_FFFF * 0x10_0000_0000_0000_0000)
            by (nonlinear_arith)
            requires m as int <= 0xFFFF_FFFF;
    }
    let mut ra: i128 = a;
    let mut rb: i128 = b;
    let mut rc: i128 = c;
    while ra >= 0x1000_0000 || rc >= 0x1000_0000 || rb >= 0x1000_0000 || rb <= -0x1000_0000
        invariant
            0 <= ra <= 0x100_0000_0000_0000_0000_0000_0000,
            0 <= rc <= 0x100_0000_0000_0000_0000_0000_0000,
            -0x100_0000_0000_0000_0000_0000_0000 <= rb <= 0x100_0000_0000_0000_0000_0000_0000,
        decreases ra + rc + (if rb >= 0 { rb as int } else { -(rb as int) }),
    {
        let nb: i128 = if rb >= 0 {
            rb / 2
        } else {
            -((-rb) / 2)
        };
        proof {
            vstd::arithmetic::div_mod::lemma_fundamental_div_mod(ra as int, 2);
            vstd::arithmetic::div_mod::lemma_fundamental_div_mod(rc as int, 2);
            if rb >= 0 {
                vstd::arithmetic::div_mod::lemma_fundamental_div_mod(rb as int, 2);
            } else {
                vstd::arithmetic::div_mod::lemma_fundamental_div_mod(-(rb as int), 2);
            }
        }
        ra = ra / 2;
        rc = rc / 2;
        rb = nb;
    }
    // Direction of the principal axis: (b, lambda - a) for the leading
    // eigenvalue lambda, or a plain coordinate axis when b is zero.
    let dirx: i64;
    let diry: i64;
    if rb == 0 {
        if ra >= rc {
            dirx = 1;
            diry = 0;
        } else {
            dirx = 0;
            diry = 1;
        }
    } else {
        let d: i128 = ra - rc;
        proof {
            assert(0 <= d * d < 0x100_0000_0000_0000 && 0 <= rb * rb < 0x100_0000_0000_0000
                && 0 <= d * d + 4 * (rb * rb) < 0x1000_0000_0000_0000) by (nonlinear_arith)
                requires
                    -0x1000_0000 < d < 0x1000_0000,
                    -0x1000_0000 < rb < 0x1000_0000,
                    d == ra - rc;
        }
        let disc: u64 = (d * d + 4 * (rb * rb)) as u64;
        let root: u64 = isqrt(disc);
        proof {
            assert(root < 0x4000_0000) by (nonlinear_arith)
                requires
                    (root as int) * (root as int) <= disc as int,
                    disc < 0x1000_0000_0000_0000,
                    root >= 0;
        }
        let lambda: i128 = (ra + rc + root as i128) / 2;
        proof {
            vstd::arithmetic::div_mod::lemma_fundamental_div_mod(
                ra as int + rc as int + root as int,
                2,
            );
            assert(0 <= (ra as int + rc as int + root as int) / 2 <= 0x3000_0000)
                by (nonlinear_arith)
                requires
                    0 <= ra < 0x1000_0000,
                    0 <= rc < 0x1000_0000,
                    0 <= root < 0x4000_0000,
                    ra as int + rc as int + root as int == 2 * ((ra as int + rc as int
                        + root as int) / 2) + (ra as int + rc as int + root as int) % 2,
                    0 <= (ra as int + rc as int + root as int) % 2 < 2;
        }
        dirx = rb as i64;
        diry = (lambda - ra) as i64;
    }
    // Project every point on the direction; the biased projection is an
    // order-preserving u64 key.
    let mut keys: Vec<u64> = Vec::new();
    let mut j: usize = 0;
    while j < m
        invariant
            0 <= j <= m,
            m == perm@.len(),
            points_in_range(points@),
            forall|t: int| 0 <= t < m ==> (#[trigger] perm@[t]) < points@.len(),
            keys@.len() == j,
            -0x4000_0000 <= dirx as int <= 0x4000_0000,
            -0x4000_0000 <= diry as int <= 0x4000_0000,
        decreases m - j,
    {
        let p = points[perm[j]];
        proof {
            assert(-0x1000_0000_0000_0000 <= (dirx as int) * (p.x as int) <= 0x1000_0000_0000_0000
                && -0x1000_0000_0000_0000 <= (diry as int) * (p.y as int)
                <= 0x1000_0000_0000_0000) by (nonlinear_arith)
                requires
                    -0x4000_0000 <= dirx as int <= 0x4000_0000,
                    -0x4000_0000 <= diry as int <= 0x4000_0000,
                    -0x4000_0000 <= p.x as int <= 0x4000_0000,
                    -0x4000_0000 <= p.y as int <= 0x4000_0000;
        }
        let proj: i64 = ((dirx as i128) * (p.x as i128) + (diry as i128) * (p.y as i128)) as i64;
        keys.push(coord_key(proj));
        j = j + 1;
    }
    keys
}


/// One level of recursive bisection: order the subset by its key, cut it
/// at the weighted median, recurse on both halves.  A subset whose keys
/// are all equal, or a single point, or an exhausted iteration budget
/// makes one part with one fresh identifier.
#[verifier::rlimit(60)]
fn rb_recurse(
    points: &Vec<Point2D>,
    weights: &Vec<u64>,
    perm: &Vec<usize>,
    x_axis: bool,
    inertial: bool,
    iter_left: usize,
    ids: &mut Vec<Pid>,
    minter: &mut PidMinter,
)
    requires
        weights@.len() == points@.len(),
        old(ids)@.len() == points@.len(),
        points@.len() <= MAX_POINTS,
        points_in_range(points@),
        weights_in_range(weights@),
        perm@.len() <= points@.len(),
        forall|j: int| 0 <= j < perm@.len() ==> (#[trigger] perm@[j]) < points@.len(),
        perm@.no_duplicates(),
        iter_left <= 62,
        old(minter).spec_next() + pow2(iter_left as nat) <= u64::MAX,
    ensures
        final(ids)@.len() == old(ids)@.len(),
        old(minter).spec_next() < final(minter).spec_next() <= old(minter).spec_next() + pow2(
            iter_left as nat,
        ),
        forall|idx: int|
            0 <= idx < old(ids)@.len() && !perm@.contains(idx as usize) ==> final(ids)@[idx]
                == old(ids)@[idx],
        forall|j: int|
            0 <= j < perm@.len() ==> !old(minter).minted(
                final(ids)@[(#[trigger] perm@[j]) as int],
            ) && final(minter).minted(final(ids)@[perm@[j] as int]),
    decreases iter_left,
{
    proof {
        lemma_pow2_pos(iter_left as nat);
    }
    let n = points.len();
    if iter_left == 0 || perm.len() <= 1 {
        let p = minter.fresh();
        assign_pid(perm, p, ids);
        return ;
    }
    let keys = if inertial {
        inertial_keys(points, perm)
    } else {
        axis_keys(points, perm, x_axis)
    };
    let order = sort_indices_by_key(&keys);
    // All keys equal: the subset is degenerate along this key and stays a
    // single part for the remainder of the recursion.
    if keys[order[0]] == keys[order[perm.len() - 1]] {
        let p = minter.fresh();
        assign_pid(perm, p, ids);
        return ;
    }
    let ghost m0 = *minter;
    let mut new_perm: Vec<usize> = Vec::new();
    let mut j: usize = 0;
    while j < order.len()
        invariant
            0 <= j <= order@.len(),
            order@.len() == perm@.len(),
            new_perm@.len() == j,
            n == points@.len(),
            forall|t: int| 0 <= t < perm@.len() ==> (#[trigger] perm@[t]) < n,
            forall|t: int| 0 <= t < order@.len() ==> (#[trigger] order@[t]) < perm@.len(),
            forall|t: int| 0 <= t < j ==> #[trigger] new_perm@[t] == perm@[order@[t] as int],
        decreases order@.len() - j,
    {
        new_perm.push(perm[order[j]]);
        j = j + 1;
    }
    let ghost np = new_perm@.len() as int;
    proof {
        assert forall|t: int| 0 <= t < np implies (#[trigger] new_perm@[t]) < n by {}
        assert(new_perm@.no_duplicates()) by {
            assert forall|a: int, b: int|
                0 <= a < np && 0 <= b < np && a != b implies new_perm@[a] != new_perm@[b] by {
                assert(order@[a] != order@[b]);
            }
        }
        assert forall|x: usize| perm@.contains(x) implies new_perm@.contains(x) by {
            let i = choose|i: int| 0 <= i < perm@.len() && perm@[i] == x;
            assert(order@.contains(i as usize));
            let t = choose|t: int| 0 <= t < order@.len() && order@[t] == i as usize;
            assert(new_perm@[t] == x);
        }
        assert forall|x: usize| new_perm@.contains(x) implies perm@.contains(x) by {
            let t = choose|t: int| 0 <= t < np && new_perm@[t] == x;
            assert(perm@[order@[t] as int] == x);
        }
    }
    let mut pw: Vec<u64> = Vec::new();
    let mut j: usize = 0;
    while j < new_perm.len()
        invariant
            0 <= j <= np,
            np == new_perm@.len(),
            pw@.len() == j,
            weights@.len() == n,
            n == points@.len(),
            weights_in_range(weights@),
            forall|t: int| 0 <= t < np ==> (#[trigger] new_perm@[t]) < n,
            forall|t: int| 0 <= t < j ==> #[trigger] pw@[t] <= crate::split::WEIGHT_LIMIT,
        decreases np - j,
    {
        pw.push(weights[new_perm[j]]);
        j = j + 1;
    }
    proof {
        lemma_total_bounded(pw@);
    }
    let positions = split_positions(&pw, 2);
    let pos = positions[0];
    let mut left: Vec<usize> = Vec::new();
    let mut t: usize = 0;
    while t < pos
        invariant
            0 <= t <= pos <= np,
            np == new_perm@.len(),
            left@.len() == t,
            forall|u: int| 0 <= u < t ==> #[trigger] left@[u] == new_perm@[u],
        decreases pos - t,
    {
        left.push(new_perm[t]);
        t = t + 1;
    }
    let mut right: Vec<usize> = Vec::new();
    let mut t: usize = pos;
    while t < new_perm.len()
        invariant
            pos <= t <= np,
            np == new_perm@.len(),
            right@.len() == t - pos,
            forall|u: int| 0 <= u < t - pos ==> #[trigger] right@[u] == new_perm@[pos + u],
        decreases np - t,
    {
        right.push(new_perm[t]);
        t = t + 1;
    }
    proof {
        assert(left@ =~= new_perm@.subrange(0, pos as int));
        assert(right@ =~= new_perm@.subrange(pos as int, np));
        assert forall|u: int| 0 <= u < left@.len() implies (#[trigger] left@[u]) < n by {}
        assert forall|u: int| 0 <= u < right@.len() implies (#[trigger] right@[u]) < n by {}
        assert(left@.no_duplicates()) by {
            assert forall|a: int, b: int|
                0 <= a < left@.len() && 0 <= b < left@.len() && a != b implies left@[a]
                != left@[b] by {
                assert(left@[a] == new_perm@[a] && left@[b] == new_perm@[b]);
            }
        }
        assert(right@.no_duplicates()) by {
            assert forall|a: int, b: int|
                0 <= a < right@.len() && 0 <= b < right@.len() && a != b implies right@[a]
                != right@[b] by {
                assert(right@[a] == new_perm@[pos + a] && right@[b] == new_perm@[pos + b]);
            }
        }
        lemma_pow2_unfold(iter_left as nat);
        lemma_pow2_pos((iter_left - 1) as nat);
    }
    let ghost pre_ids = ids@;
    rb_recurse(points, weights, &left, !x_axis, inertial, iter_left - 1, ids, minter);
    let ghost mid_ids = ids@;
    let ghost m1 = *minter;
    rb_recurse(points, weights, &right, !x_axis, inertial, iter_left - 1, ids, minter);
    proof {
        assert forall|idx: int|
            0 <= idx < n && !perm@.contains(idx as usize) implies ids@[idx] == old(
            ids,
        )@[idx] by {
            if left@.contains(idx as usize) {
                let u = choose|u: int| 0 <= u < left@.len() && left@[u] == idx as usize;
                assert(new_perm@[u] == idx as usize);
                assert(new_perm@.contains(idx as usize));
            }
            if right@.contains(idx as usize) {
                let u = choose|u: int| 0 <= u < right@.len() && right@[u] == idx as usize;
                assert(new_perm@[pos + u] == idx as usize);
                assert(new_perm@.contains(idx as usize));
            }
        }
        assert forall|j: int|
            0 <= j < perm@.len() implies !old(minter).minted(
            ids@[(#[trigger] perm@[j]) as int],
        ) && minter.minted(ids@[perm@[j] as int]) by {
            let x = perm@[j];
            assert(perm@.contains(x));
            assert(new_perm@.contains(x));
            let r = choose|r: int| 0 <= r < np && new_perm@[r] == x;
            if r < pos {
                assert(left@[r] == x);
                assert(left@.contains(x));
                // The right half does not touch it.
                if right@.contains(x) {
                    let u = choose|u: int| 0 <= u < right@.len() && right@[u] == x;
                    assert(new_perm@[pos + u] == x);
                    assert(false);
                }
                assert(ids@[x as int] == mid_ids[x as int]);
                lemma_minted_monotone(m1, *minter, ids@[x as int]);
            } else {
                assert(right@[r - pos] == x);
                assert(right@.contains(x));
                assert(!m1.minted(ids@[x as int]));
                lemma_unminted_monotone(m0, m1, ids@[x as int]);
            }
        }
    }
}

/// Recursive coordinate bisection: `num_iter` levels of weighted-median
/// cuts along alternating coordinate axes.  Every returned identifier was
/// minted by this call, and all lie in a counter window of width
/// `1 + 2^num_iter`, the recursion minting at most `2^num_iter` of them:
/// at most `2^num_iter` distinct parts come out
/// (see [`lemma_bisection_part_count`]).
pub fn rcb(
    points: &Vec<Point2D>,
    weights: &Vec<u64>,
    num_iter: usize,
    minter: &mut PidMinter,
) -> (ids: Vec<Pid>)
    requires
        points@.len() == weights@.len(),
        points@.len() <= MAX_POINTS,
        points_in_range(points@),
        weights_in_range(weights@),
        num_iter <= 62,
        old(minter).spec_next() + 1 + pow2(num_iter as nat) <= u64::MAX,
    ensures
        ids@.len() == points@.len(),
        forall|i: int|
            0 <= i < ids@.len() ==> !old(minter).minted(#[trigger] ids@[i])
                && final(minter).minted(ids@[i]),
        forall|i: int|
            0 <= i < ids@.len() ==> old(minter).spec_next() < (#[trigger] ids@[i]).spec_id()
                < old(minter).spec_next() + 1 + pow2(num_iter as nat),
        old(minter).spec_next() <= final(minter).spec_next() <= old(minter).spec_next() + 1
            + pow2(num_iter as nat),
{
    bisection(points, weights, num_iter, false, minter)
}

/// Recursive inertial bisection: as [`rcb`], but each subset is cut along
/// its own principal axis of inertia instead of a coordinate axis.
pub fn rib(
    points: &Vec<Point2D>,
    weights: &Vec<u64>,
    num_iter: usize,
    minter: &mut PidMinter,
) -> (ids: Vec<Pid>)
    requires
        points@.len() == weights@.len(),
        points@.len() <= MAX_POINTS,
        points_in_range(points@),
        weights_in_range(weights@),
        num_iter <= 62,
        old(minter).spec_next() + 1 + pow2(num_iter as nat) <= u64::MAX,
    ensures
        ids@.len() == points@.len(),
        forall|i: int|
            0 <= i < ids@.len() ==> !old(minter).minted(#[trigger] ids@[i])
                && final(minter).minted(ids@[i]),
        forall|i: int|
            0 <= i < ids@.len() ==> old(minter).spec_next() < (#[trigger] ids@[i]).spec_id()
                < old(minter).spec_next() + 1 + pow2(num_iter as nat),
        old(minter).spec_next() <= final(minter).spec_next() <= old(minter).spec_next() + 1
            + pow2(num_iter as nat),
{
    bisection(points, weights, num_iter, true, minter)
}

/// Shared driver of [`rcb`] and [`rib`].
fn bisection(
    points: &Vec<Point2D>,
    weights: &Vec<u64>,
    num_iter: usize,
    inertial: bool,
    minter: &mut PidMinter,
) -> (ids: Vec<Pid>)
    requires
        points@.len() == weights@.len(),
        points@.len() <= MAX_POINTS,
        points_in_range(points@),
        weights_in_range(weights@),
        num_iter <= 62,
        old(minter).spec_next() + 1 + pow2(num_iter as nat) <= u64::MAX,
    ensures
        ids@.len() == points@.len(),
        forall|i: int|
            0 <= i < ids@.len() ==> !old(minter).minted(#[trigger] ids@[i])
                && final(minter).minted(ids@[i]),
        forall|i: int|
            0 <= i < ids@.len() ==> old(minter).spec_next() < (#[trigger] ids@[i]).spec_id()
                < old(minter).spec_next() + 1 + pow2(num_iter as nat),
        old(minter).spec_next() <= final(minter).spec_next() <= old(minter).spec_next() + 1
            + pow2(num_iter as nat),
{
    let ghost m_start = *minter;
    let n = points.len();
    proof {
        lemma_pow2_pos(num_iter as nat);
    }
    let init = minter.fresh();
    let ghost m_filled = *minter;
    let mut ids: Vec<Pid> = Vec::new();
    let mut i: usize = 0;
    while i < n
        invariant
            0 <= i <= n,
            ids@.len() == i,
        decreases n - i,
    {
        ids.push(init);
        i = i + 1;
    }
    let mut perm: Vec<usize> = Vec::new();
    let mut i: usize = 0;
    while i < n
        invariant
            0 <= i <= n,
            perm@.len() == i,
            forall|t: int| 0 <= t < i ==> #[trigger] perm@[t] == t as usize,
        decreases n - i,
    {
        perm.push(i);
        i = i + 1;
    }
    proof {
        assert(perm@.no_duplicates());
    }
    rb_recurse(points, weights, &perm, true, inertial, num_iter, &mut ids, minter);
    proof {
        assert forall|i: int|
            0 <= i < ids@.len() implies !m_start.minted(#[trigger] ids@[i]) && minter.minted(
            ids@[i],
        ) && m_start.spec_next() < ids@[i].spec_id() < m_start.spec_next() + 1 + pow2(
            num_iter as nat,
        ) by {
            assert(perm@[i] == i as usize);
            assert(!m_filled.minted(ids@[i]) && minter.minted(ids@[i]));
            lemma_unminted_monotone(m_start, m_filled, ids@[i]);
            lemma_minted_window(m_filled, *minter, ids@[i]);
        }
    }
    ids
}

/// Law: the output of a bisection of `num_iter` levels carries at most
/// `2^num_iter` distinct part identifiers.  The window bound in the
/// partitioners' contracts is turned into a count of distinct parts.
pub proof fn lemma_bisection_part_count(ids: Seq<Pid>, next0: nat, num_iter: nat)
    requires
        forall|i: int|
            0 <= i < ids.len() ==> next0 < (#[trigger] ids[i]).spec_id() < next0 + 1 + pow2(
                num_iter,
            ),
    ensures
        ids.to_set().finite(),
        ids.to_set().len() <= pow2(num_iter),
{
    lemma_pow2_pos(num_iter);
    crate::pid::lemma_distinct_pids_bounded(ids, next0 + 1, pow2(num_iter));
}

} // verus!
