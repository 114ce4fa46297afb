//! The balanced k-means refiner: influence-adjusted Voronoi assignment
//! with triangle-inequality bounds and iterative influence rebalancing.
//!
//! Each cluster keeps a centroid and a scalar influence; a point's
//! effective distance to a cluster is its distance divided by the
//! cluster's influence.  The inner loop reassigns points to the cluster
//! of least effective distance, then shrinks the influence of overweight
//! clusters and grows that of light ones (clamped to five percent per
//! round), until the part weights balance; the outer loop recomputes
//! centroids until they stop moving.  Per-point lower and upper bounds on
//! the effective distances let unchanged points skip recomputation; after
//! a centroid moves the bounds are relaxed by the moved distance over the
//! influence, never crossing zero.
//!
//! The experimental erosion and bounding-box early-break switches are
//! accepted for compatibility but perform nothing: both are documented as
//! yielding wrong results.

use vstd::prelude::*;
use crate::analysis::imbalance_relative_diff;
use crate::analysis::spec_part_weight;
use crate::analysis::weights as part_weights;
use crate::error::Error;
use crate::geometry::COORD_LIMIT;
use crate::geometry::Point2D;
use crate::geometry::dist2;
use crate::geometry::isqrt;
use crate::geometry::points_in_range;
use crate::pid::Pid;
use crate::pid::PidMinter;
use crate::sort::sort_indices_by_key;
use crate::split::MAX_POINTS;
use crate::split::csum;
use crate::split::lemma_csum_mono;
use crate::split::lemma_csum_nonneg;
use crate::split::lemma_total_bounded;
use crate::split::weights_in_range;

verus! {

/// The fixed-point unit of a cluster influence.
pub const INFLUENCE_SCALE: u64 = 0x10_0000;

/// The smallest admitted influence.
pub const MIN_INFLUENCE: u64 = 0x400;

/// The largest admitted influence.
pub const MAX_INFLUENCE: u64 = 0x4000_0000;

/// The settings of a balanced k-means run.
pub struct BalancedKmeansSettings {
    pub num_partitions: usize,
    /// Tolerated relative imbalance, in percent of the total weight.
    pub imbalance_tol: u64,
    pub delta_threshold: u64,
    pub max_iter: usize,
    pub max_balance_iter: usize,
    /// Experimental erosion switch: accepted, but a no-op.
    pub erode: bool,
    /// Seed the clusters along the Hilbert curve instead of the Z curve.
    pub hilbert: bool,
    /// Experimental bounding-box early-break switch: accepted, but a no-op.
    pub mbr_early_break: bool,
}

/// The index of a label in the cluster list, or the list length when the
/// label is absent.
fn cluster_index(clusters: &Vec<Pid>, p: Pid) -> (r: usize)
    ensures
        r <= clusters@.len(),
        r < clusters@.len() ==> clusters@[r as int] == p,
{
    let mut t: usize = 0;
    while t < clusters.len()
        invariant
            0 <= t <= clusters@.len(),
        decreases clusters@.len() - t,
    {
        if clusters[t] == p {
            return t;
        }
        t = t + 1;
    }
    t
}

/// The weighted centroid of every cluster.  A cluster whose points carry
/// no weight falls back to the plain mean of its points; one with no
/// points keeps the origin.
fn compute_centroids(
    points: &Vec<Point2D>,
    weights: &Vec<u64>,
    ids: &Vec<Pid>,
    clusters: &Vec<Pid>,
) -> (cents: Vec<Point2D>)
    requires
        points@.len() == weights@.len(),
        points@.len() == ids@.len(),
        points@.len() <= MAX_POINTS,
        points_in_range(points@),
        weights_in_range(weights@),
    ensures
        cents@.len() == clusters@.len(),
        points_in_range(cents@),
{
    let n = points.len();
    let k = clusters.len();
    let mut cents: Vec<Point2D> = Vec::new();
    let mut c: usize = 0;
    while c < k
        invariant
            0 <= c <= k,
            k == clusters@.len(),
            n == points@.len(),
            n == weights@.len(),
            n == ids@.len(),
            n <= MAX_POINTS,
            points_in_range(points@),
            weights_in_range(weights@),
            cents@.len() == c,
            points_in_range(cents@),
        decreases k - c,
    {
        let target = clusters[c];
        let mut sx: u128 = 0;
        let mut sy: u128 = 0;
        let mut sw: u64 = 0;
        let mut ux: u128 = 0;
        let mut uy: u128 = 0;
        let mut cnt: u64 = 0;
        let mut i: usize = 0;
        while i < n
            invariant
                0 <= i <= n,
                n == points@.len(),
                n == weights@.len(),
                n == ids@.len(),
                n <= MAX_POINTS,
                points_in_range(points@),
                weights_in_range(weights@),
                cnt <= i,
                sw as int <= csum(weights@, i as int),
                csum(weights@, i as int) <= u64::MAX,
                sx as int <= (sw as int) * 0x8000_0000,
                sy as int <= (sw as int) * 0x8000_0000,
                ux as int <= (cnt as int) * 0x8000_0000,
                uy as int <= (cnt as int) * 0x8000_0000,
            decreases n - i,
        {
            proof {
                lemma_csum_mono(weights@, i + 1, n as int);
                lemma_csum_nonneg(weights@, i as int);
                lemma_total_bounded(weights@);
            }
            if ids[i] == target {
                let p = points[i];
                let w = weights[i];
                let bx: u64 = (p.x + COORD_LIMIT) as u64;
                let by: u64 = (p.y + COORD_LIMIT) as u64;
                proof {
                    assert((sw as int) * 0x8000_0000 + (w as int) * 0x8000_0000 == ((sw + w)
                        as int) * 0x8000_0000 && (w as int) * (bx as int) <= (w as int)
                        * 0x8000_0000 && (w as int) * (by as int) <= (w as int) * 0x8000_0000
                        && 0 <= (w as int) * (bx as int) && 0 <= (w as int) * (by as int) && ((
                    sw + w) as int) * 0x8000_0000 <= 0x1_0000_0000_0000_0000 * 0x8000_0000)
                        by (nonlinear_arith)
                        requires
                            0 <= w,
                            0 <= bx <= 0x8000_0000,
                            0 <= by <= 0x8000_0000,
                            0 <= sw,
                            sw + w <= 0x1_0000_0000_0000_0000;
                    assert((cnt as int) * 0x8000_0000 + 0x8000_0000 == ((cnt + 1) as int)
                        * 0x8000_0000 && ((cnt + 1) as int) * 0x8000_0000
                        <= 0x1_0000_0000_0000_0000 * 0x8000_0000) by (nonlinear_arith)
                        requires 0 <= cnt, cnt + 1 <= 0x1_0000_0000_0000_0000;
                }
                sx = sx + (w as u128) * (bx as u128);
                sy = sy + (w as u128) * (by as u128);
                sw = sw + w;
                ux = ux + bx as u128;
                uy = uy + by as u128;
                cnt = cnt + 1;
            }
            i = i + 1;
        }
        let cent: Point2D;
        if sw > 0 {
            proof {
                vstd::arithmetic::div_mod::lemma_fundamental_div_mod(sx as int, sw as int);
                vstd::arithmetic::div_mod::lemma_fundamental_div_mod(sy as int, sw as int);
                assert(0 <= (sx as int) / (sw as int) <= 0x8000_0000 && 0 <= (sy as int) / (
                sw as int) <= 0x8000_0000) by (nonlinear_arith)
                    requires
                        0 <= sx as int <= (sw as int) * 0x8000_0000,
                        0 <= sy as int <= (sw as int) * 0x8000_0000,
                        sx as int == (sw as int) * ((sx as int) / (sw as int)) + (sx as int) % (
                        sw as int),
                        sy as int == (sw as int) * ((sy as int) / (sw as int)) + (sy as int) % (
                        sw as int),
                        0 <= (sx as int) % (sw as int) < sw as int,
                        0 <= (sy as int) % (sw as int) < sw as int,
                        1 <= sw as int;
            }
            let cx: i64 = ((sx / (sw as u128)) as i64) - COORD_LIMIT;
            let cy: i64 = ((sy / (sw as u128)) as i64) - COORD_LIMIT;
            cent = Point2D { x: cx, y: cy };
        } else if cnt > 0 {
            proof {
                vstd::arithmetic::div_mod::lemma_fundamental_div_mod(ux as int, cnt as int);
                vstd::arithmetic::div_mod::lemma_fundamental_div_mod(uy as int, cnt as int);
                assert(0 <= (ux as int) / (cnt as int) <= 0x8000_0000 && 0 <= (uy as int) / (
                cnt as int) <= 0x8000_0000) by (nonlinear_arith)
                    requires
                        0 <= ux as int <= (cnt as int) * 0x8000_0000,
                        0 <= uy as int <= (cnt as int) * 0x8000_0000,
                        ux as int == (cnt as int) * ((ux as int) / (cnt as int)) + (ux as int) % (
                        cnt as int),
                        uy as int == (cnt as int) * ((uy as int) / (cnt as int)) + (uy as int) % (
                        cnt as int),
                        0 <= (ux as int) % (cnt as int) < cnt as int,
                        0 <= (uy as int) % (cnt as int) < cnt as int,
                        1 <= cnt as int;
            }
            let cx: i64 = ((ux / (cnt as u128)) as i64) - COORD_LIMIT;
            let cy: i64 = ((uy / (cnt as u128)) as i64) - COORD_LIMIT;
            cent = Point2D { x: cx, y: cy };
        } else {
            cent = Point2D { x: 0, y: 0 };
        }
        cents.push(cent);
        proof {
            assert forall|t: int|
                0 <= t < cents@.len() implies (#[trigger] cents@[t]).in_range() by {}
        }
        c = c + 1;
    }
    cents
}

/// The effective distance from a point to a centroid: the Euclidean
/// distance (rounded down) scaled by the unit and divided by the
/// cluster's influence.
fn effective_distance(p: Point2D, cent: Point2D, influence: u64) -> (ed: u64)
    requires
        p.in_range(),
        cent.in_range(),
        MIN_INFLUENCE <= influence <= MAX_INFLUENCE,
{
    let d2 = dist2(p, cent);
    let d = isqrt(d2);
    proof {
        assert(d < 0x2_0000_0000) by (nonlinear_arith)
            requires
                (d as int) * (d as int) <= d2 as int,
                d2 <= 0x8000_0000_0000_0000,
                d >= 0;
        assert((d as int) * (INFLUENCE_SCALE as int) < 0x2_0000_0000 * 0x10_0000)
            by (nonlinear_arith)
            requires d < 0x2_0000_0000;
    }
    (d * INFLUENCE_SCALE) / influence
}

/// Balanced k-means over an existing partition: reassign every point to
/// the cluster of least effective distance, rebalance the influences,
/// move the centroids, and repeat within the iteration budgets.  The
/// result is `Ok` exactly when the relative imbalance of the final part
/// weights — the largest pairwise difference as a share of the total
/// weight — is within `imbalance_tol` percent; otherwise the final
/// labelling, still a valid partition over the input's own labels, is
/// reported as not converged.  Every label of the result was already
/// present in the input labelling.
#[verifier::rlimit(100)]
pub fn balanced_k_means_with_initial_partition(
    points: &Vec<Point2D>,
    weights: &Vec<u64>,
    settings: &BalancedKmeansSettings,
    ids: &mut Vec<Pid>,
) -> (r: Result<(), Error>)
    requires
        points@.len() == weights@.len(),
        points@.len() == old(ids)@.len(),
        points@.len() <= MAX_POINTS,
        points_in_range(points@),
        weights_in_range(weights@),
    ensures
        final(ids)@.len() == old(ids)@.len(),
        forall|i: int|
            0 <= i < final(ids)@.len() ==> old(ids)@.contains(#[trigger] final(ids)@[i]),
        r is Err ==> r == Result::<(), Error>::Err(Error::NotConverged),
        final(ids)@.len() == 0 ==> r is Ok,
        final(ids)@.len() > 0 ==> (r is Ok <==> forall|pa: Pid, pb: Pid|
            final(ids)@.contains(pa) && final(ids)@.contains(pb) ==> (spec_part_weight(
                weights@,
                final(ids)@,
                pa,
            ) - spec_part_weight(weights@, final(ids)@, pb)) * 100 <= (
            settings.imbalance_tol as int) * crate::split::total(weights@)),
{
    let n = points.len();
    let ghost orig = old(ids)@;
    let parts = part_weights(weights, ids);
    proof {
        assert forall|j: int|
            0 <= j < parts@.len() implies orig.contains((#[trigger] parts@[j]).0) by {
            let p = parts@[j].0;
            assert(0 <= j < parts@.len() && parts@[j].0 == p);
            assert(exists|u: int| 0 <= u < parts@.len() && (#[trigger] parts@[u]).0 == p);
        }
    }
    let mut clusters: Vec<Pid> = Vec::new();
    let mut t: usize = 0;
    while t < parts.len()
        invariant
            0 <= t <= parts@.len(),
            clusters@.len() == t,
            forall|j: int| 0 <= j < parts@.len() ==> orig.contains((#[trigger] parts@[j]).0),
            forall|j: int| 0 <= j < t ==> #[trigger] clusters@[j] == parts@[j].0,
            forall|j: int| 0 <= j < t ==> orig.contains(#[trigger] clusters@[j]),
        decreases parts@.len() - t,
    {
        clusters.push(parts[t].0);
        t = t + 1;
    }
    let k = clusters.len();
    if k > 0 {
        let mut centroids = compute_centroids(points, weights, ids, &clusters);
        let mut influences: Vec<u64> = Vec::new();
        let mut t: usize = 0;
        while t < k
            invariant
                0 <= t <= k,
                influences@.len() == t,
                forall|j: int|
                    0 <= j < t ==> MIN_INFLUENCE <= #[trigger] influences@[j] <= MAX_INFLUENCE,
            decreases k - t,
        {
            influences.push(INFLUENCE_SCALE);
            t = t + 1;
        }
        let mut lbs: Vec<u64> = Vec::new();
        let mut ubs: Vec<u64> = Vec::new();
        let mut t: usize = 0;
        while t < n
            invariant
                0 <= t <= n,
                lbs@.len() == t,
                ubs@.len() == t,
            decreases n - t,
        {
            lbs.push(0);
            ubs.push(u64::MAX);
            t = t + 1;
        }
        // Total weight and the per-cluster target.
        let mut total_w: u64 = 0;
        let mut i: usize = 0;
        proof {
            lemma_total_bounded(weights@);
        }
        while i < n
            invariant
                0 <= i <= n,
                n == weights@.len(),
                weights_in_range(weights@),
                n <= MAX_POINTS,
                total_w == csum(weights@, i as int),
            decreases n - i,
        {
            proof {
                lemma_csum_mono(weights@, i + 1, n as int);
                lemma_csum_nonneg(weights@, i as int);
                lemma_total_bounded(weights@);
            }
            total_w = total_w + weights[i];
            i = i + 1;
        }
        let target_w: u64 = total_w / (k as u64);
        let mut outer: usize = 0;
        let mut done: bool = false;
        while outer < settings.max_iter && !done
            invariant
                n == points@.len(),
                n == weights@.len(),
                n <= MAX_POINTS,
                points_in_range(points@),
                weights_in_range(weights@),
                ids@.len() == n,
                clusters@.len() == k,
                centroids@.len() == k,
                influences@.len() == k,
                lbs@.len() == n,
                ubs@.len() == n,
                k >= 1,
                points_in_range(centroids@),
                forall|j: int|
                    0 <= j < k ==> MIN_INFLUENCE <= #[trigger] influences@[j] <= MAX_INFLUENCE,
                forall|j: int| 0 <= j < k ==> orig.contains(#[trigger] clusters@[j]),
                forall|i: int| 0 <= i < n ==> orig.contains(#[trigger] ids@[i]),
            decreases settings.max_iter - outer,
        {
            let mut balance: usize = 0;
            while balance < settings.max_balance_iter && !done
                invariant
                    n == points@.len(),
                    n == weights@.len(),
                    n <= MAX_POINTS,
                    points_in_range(points@),
                    weights_in_range(weights@),
                    ids@.len() == n,
                    clusters@.len() == k,
                    centroids@.len() == k,
                    influences@.len() == k,
                    lbs@.len() == n,
                    ubs@.len() == n,
                    k >= 1,
                    points_in_range(centroids@),
                    forall|j: int|
                        0 <= j < k ==> MIN_INFLUENCE <= #[trigger] influences@[j]
                            <= MAX_INFLUENCE,
                    forall|j: int| 0 <= j < k ==> orig.contains(#[trigger] clusters@[j]),
                    forall|i: int| 0 <= i < n ==> orig.contains(#[trigger] ids@[i]),
                decreases settings.max_balance_iter - balance,
            {
                // Assign every point whose bounds leave room to the
                // cluster of least effective distance.
                let mut i: usize = 0;
                while i < n
                    invariant
                        0 <= i <= n,
                        n == points@.len(),
                        n == weights@.len(),
                        points_in_range(points@),
                        ids@.len() == n,
                        clusters@.len() == k,
                        centroids@.len() == k,
                        influences@.len() == k,
                        lbs@.len() == n,
                        ubs@.len() == n,
                        k >= 1,
                        points_in_range(centroids@),
                        forall|j: int|
                            0 <= j < k ==> MIN_INFLUENCE <= #[trigger] influences@[j]
                                <= MAX_INFLUENCE,
                        forall|j: int| 0 <= j < k ==> orig.contains(#[trigger] clusters@[j]),
                        forall|t: int| 0 <= t < n ==> orig.contains(#[trigger] ids@[t]),
                    decreases n - i,
                {
                    if lbs[i] < ubs[i] {
                        let p = points[i];
                        let mut best_c: usize = 0;
                        let mut best_ed: u64 = effective_distance(
                            p,
                            centroids[0],
                            influences[0],
                        );
                        let mut second_ed: u64 = u64::MAX;
                        let mut c: usize = 1;
                        while c < k
                            invariant
                                1 <= c <= k,
                                best_c < k,
                                clusters@.len() == k,
                                centroids@.len() == k,
                                influences@.len() == k,
                                points_in_range(centroids@),
                                p.in_range(),
                                forall|j: int|
                                    0 <= j < k ==> MIN_INFLUENCE <= #[trigger] influences@[j]
                                        <= MAX_INFLUENCE,
                            decreases k - c,
                        {
                            let ed = effective_distance(p, centroids[c], influences[c]);
                            if ed < best_ed {
                                second_ed = best_ed;
                                best_ed = ed;
                                best_c = c;
                            } else if ed < second_ed {
                                second_ed = ed;
                            }
                            c = c + 1;
                        }
                        let ghost pre = ids@;
                        ids.set(i, clusters[best_c]);
                        proof {
                            assert forall|t: int|
                                0 <= t < n implies orig.contains(#[trigger] ids@[t]) by {
                                if t != i {
                                    assert(ids@[t] == pre[t]);
                                }
                            }
                        }
                        ubs.set(i, best_ed);
                        lbs.set(i, second_ed);
                    }
                    i = i + 1;
                }
                // Per-cluster weights.
                let mut pw: Vec<u64> = Vec::new();
                let mut t: usize = 0;
                while t < k
                    invariant
                        0 <= t <= k,
                        pw@.len() == t,
                        forall|j: int| 0 <= j < t ==> #[trigger] pw@[j] == 0,
                    decreases k - t,
                {
                    pw.push(0);
                    t = t + 1;
                }
                let mut i: usize = 0;
                while i < n
                    invariant
                        0 <= i <= n,
                        n == weights@.len(),
                        n == ids@.len(),
                        n <= MAX_POINTS,
                        weights_in_range(weights@),
                        clusters@.len() == k,
                        pw@.len() == k,
                        forall|j: int|
                            0 <= j < k ==> #[trigger] pw@[j] as int <= csum(weights@, i as int),
                    decreases n - i,
                {
                    proof {
                        lemma_csum_mono(weights@, i + 1, n as int);
                        lemma_csum_nonneg(weights@, i as int);
                        lemma_total_bounded(weights@);
                    }
                    let c = cluster_index(&clusters, ids[i]);
                    if c < k {
                        let cur = pw[c];
                        pw.set(c, cur + weights[i]);
                    }
                    i = i + 1;
                }
                // Balanced enough?
                let mut max_w: u64 = pw[0];
                let mut min_w: u64 = pw[0];
                let mut t: usize = 1;
                while t < k
                    invariant
                        1 <= t <= k,
                        pw@.len() == k,
                        min_w <= max_w,
                    decreases k - t,
                {
                    if pw[t] > max_w {
                        max_w = pw[t];
                    }
                    if pw[t] < min_w {
                        min_w = pw[t];
                    }
                    t = t + 1;
                }
                proof {
                    assert(0 <= (settings.imbalance_tol as int) * (total_w as int)
                        <= 0xFFFF_FFFF_FFFF_FFFF * 0xFFFF_FFFF_FFFF_FFFF) by (nonlinear_arith)
                        requires
                            settings.imbalance_tol <= 0xFFFF_FFFF_FFFF_FFFF,
                            total_w <= 0xFFFF_FFFF_FFFF_FFFF;
                }
                if ((max_w - min_w) as u128) * 100 <= (settings.imbalance_tol as u128) * (
                total_w as u128) {
                    done = true;
                } else {
                    // Adjust the influences toward the target weight,
                    // clamped to five percent per round and to the
                    // admitted range.
                    let mut c: usize = 0;
                    while c < k
                        invariant
                            0 <= c <= k,
                            influences@.len() == k,
                            pw@.len() == k,
                            forall|j: int|
                                0 <= j < k ==> MIN_INFLUENCE <= #[trigger] influences@[j]
                                    <= MAX_INFLUENCE,
                        decreases k - c,
                    {
                        let w = pw[c];
                        if w > 0 {
                            let inf = influences[c];
                            // factor^2 ~ target / w, at the influence scale
                            // squared.
                            proof {
                                assert((target_w as int) * (INFLUENCE_SCALE as int) * (
                                INFLUENCE_SCALE as int) <= 0x1_0000_0000_0000_0000 * 0x10_0000
                                    * 0x10_0000 && 0 <= (target_w as int) * (
                                INFLUENCE_SCALE as int)) by (nonlinear_arith)
                                    requires target_w < 0x1_0000_0000_0000_0000;
                            }
                            let num: u128 = (target_w as u128) * (INFLUENCE_SCALE as u128)
                                * (INFLUENCE_SCALE as u128);
                            let q: u128 = num / (w as u128);
                            let qs: u64 = if q > 0x4000_0000_0000_0000 {
                                0x4000_0000_0000_0000
                            } else {
                                q as u64
                            };
                            let factor = isqrt(qs);
                            proof {
                                assert(factor < 0x1_0000_0000) by (nonlinear_arith)
                                    requires
                                        (factor as int) * (factor as int) <= qs as int,
                                        qs <= 0x4000_0000_0000_0000,
                                        factor >= 0;
                                assert((inf as int) * (factor as int) < 0x4000_0000
                                    * 0x1_0000_0000) by (nonlinear_arith)
                                    requires inf <= MAX_INFLUENCE, factor < 0x1_0000_0000;
                            }
                            let ideal128: u128 = ((inf as u128) * (factor as u128)) / (
                            INFLUENCE_SCALE as u128);
                            proof {
                                vstd::arithmetic::div_mod::lemma_fundamental_div_mod(
                                    ideal128 as int,
                                    1,
                                );
                            }
                            let ideal: u64 = if ideal128 > 0xFFFF_FFFF_FFFF_FFFF {
                                0xFFFF_FFFF_FFFF_FFFF
                            } else {
                                ideal128 as u64
                            };
                            let step = inf / 20;
                            let lo = inf - step;
                            let hi = if inf > u64::MAX - step {
                                u64::MAX
                            } else {
                                inf + step
                            };
                            let mut next = ideal;
                            if next < lo {
                                next = lo;
                            }
                            if next > hi {
                                next = hi;
                            }
                            if next < MIN_INFLUENCE {
                                next = MIN_INFLUENCE;
                            }
                            if next > MAX_INFLUENCE {
                                next = MAX_INFLUENCE;
                            }
                            influences.set(c, next);
                        }
                        c = c + 1;
                    }
                    // Move the centroids and relax the bounds.
                    let new_cents = compute_centroids(points, weights, ids, &clusters);
                    let mut ratios: Vec<u64> = Vec::new();
                    let mut max_ratio: u64 = 0;
                    let mut c: usize = 0;
                    while c < k
                        invariant
                            0 <= c <= k,
                            centroids@.len() == k,
                            new_cents@.len() == k,
                            influences@.len() == k,
                            points_in_range(centroids@),
                            points_in_range(new_cents@),
                            ratios@.len() == c,
                            forall|j: int|
                                0 <= j < k ==> MIN_INFLUENCE <= #[trigger] influences@[j]
                                    <= MAX_INFLUENCE,
                        decreases k - c,
                    {
                        let d2 = dist2(centroids[c], new_cents[c]);
                        let d = isqrt(d2);
                        proof {
                            assert(d < 0x2_0000_0000) by (nonlinear_arith)
                                requires
                                    (d as int) * (d as int) <= d2 as int,
                                    d2 <= 0x8000_0000_0000_0000,
                                    d >= 0;
                            assert((d as int) * (INFLUENCE_SCALE as int) < 0x2_0000_0000
                                * 0x10_0000) by (nonlinear_arith)
                                requires d < 0x2_0000_0000;
                        }
                        let ratio = (d * INFLUENCE_SCALE) / influences[c];
                        if ratio > max_ratio {
                            max_ratio = ratio;
                        }
                        ratios.push(ratio);
                        c = c + 1;
                    }
                    let mut i: usize = 0;
                    while i < n
                        invariant
                            0 <= i <= n,
                            n == ids@.len(),
                            clusters@.len() == k,
                            ratios@.len() == k,
                            lbs@.len() == n,
                            ubs@.len() == n,
                        decreases n - i,
                    {
                        let c = cluster_index(&clusters, ids[i]);
                        if c < k {
                            let r = ratios[c];
                            let ub = ubs[i];
                            ubs.set(i, if ub > r {
                                ub - r
                            } else {
                                0
                            });
                        }
                        let lb = lbs[i];
                        lbs.set(i, if lb > u64::MAX - max_ratio {
                            u64::MAX
                        } else {
                            lb + max_ratio
                        });
                        i = i + 1;
                    }
                    centroids = new_cents;
                }
                balance = balance + 1;
            }
            if !done {
                // Outer convergence: the centroids of the current
                // labelling against the ones the inner loop ended with.
                let new_cents = compute_centroids(points, weights, ids, &clusters);
                let mut delta_max: u64 = 0;
                let mut c: usize = 0;
                while c < k
                    invariant
                        0 <= c <= k,
                        centroids@.len() == k,
                        new_cents@.len() == k,
                        points_in_range(centroids@),
                        points_in_range(new_cents@),
                    decreases k - c,
                {
                    let d = isqrt(dist2(centroids[c], new_cents[c]));
                    if d > delta_max {
                        delta_max = d;
                    }
                    c = c + 1;
                }
                centroids = new_cents;
                if delta_max < settings.delta_threshold {
                    done = true;
                }
            }
            outer = outer + 1;
        }
    }
    // Converged exactly when the largest part-weight difference is within
    // the tolerated share of the total weight.
    let (d, tot) = imbalance_relative_diff(weights, ids);
    proof {
        assert(0 <= (settings.imbalance_tol as int) * (tot as int) <= 0xFFFF_FFFF_FFFF_FFFF
            * 0xFFFF_FFFF_FFFF_FFFF) by (nonlinear_arith)
            requires settings.imbalance_tol <= 0xFFFF_FFFF_FFFF_FFFF, tot <= 0xFFFF_FFFF_FFFF_FFFF;
    }
    if (d as u128) * 100 <= (settings.imbalance_tol as u128) * (tot as u128) {
        proof {
            if ids@.len() > 0 {
                assert forall|pa: Pid, pb: Pid|
                    ids@.contains(pa) && ids@.contains(pb) implies (spec_part_weight(
                    weights@,
                    ids@,
                    pa,
                ) - spec_part_weight(weights@, ids@, pb)) * 100 <= (
                settings.imbalance_tol as int) * crate::split::total(weights@) by {
                    let diff = spec_part_weight(weights@, ids@, pa) - spec_part_weight(
                        weights@,
                        ids@,
                        pb,
                    );
                    assert(diff <= d);
                    assert(diff * 100 <= (d as int) * 100) by (nonlinear_arith)
                        requires diff <= d as int;
                }
            }
        }
        Ok(())
    } else {
        proof {
            if ids@.len() > 0 {
                let (pa, pb) = choose|pa: Pid, pb: Pid|
                    ids@.contains(pa) && ids@.contains(pb) && d as int == spec_part_weight(
                        weights@,
                        ids@,
                        pa,
                    ) - spec_part_weight(weights@, ids@, pb);
                assert(ids@.contains(pa) && ids@.contains(pb));
            } else {
                assert(d == 0);
                assert(crate::split::total(weights@) == 0);
                assert(false);
            }
        }
        Err(Error::NotConverged)
    }
}


/// Balanced k-means from scratch: linearize the points along a
/// space-filling curve (Hilbert when the flag asks for it, Z-order
/// otherwise), seed one cluster per equal run of the ordering with a
/// freshly minted identifier, and run the balanced refinement.  The
/// result is `Ok` exactly when the relative imbalance of the final part
/// weights is within `imbalance_tol` percent of the total; either way the
/// labelling is a valid partition whose identifiers were all minted by
/// this call.
pub fn balanced_k_means(
    points: &Vec<Point2D>,
    weights: &Vec<u64>,
    settings: &BalancedKmeansSettings,
    minter: &mut PidMinter,
) -> (r: (Vec<Pid>, Result<(), Error>))
    requires
        points@.len() == weights@.len(),
        points@.len() <= MAX_POINTS,
        points_in_range(points@),
        weights_in_range(weights@),
        1 <= settings.num_partitions,
        old(minter).spec_next() + settings.num_partitions <= u64::MAX,
    ensures
        r.0@.len() == points@.len(),
        forall|i: int|
            0 <= i < r.0@.len() ==> !old(minter).minted(#[trigger] r.0@[i])
                && final(minter).minted(r.0@[i]),
        final(minter).spec_next() == old(minter).spec_next() + settings.num_partitions,
        r.1 is Err ==> r.1 == Result::<(), Error>::Err(Error::NotConverged),
        r.0@.len() == 0 ==> r.1 is Ok,
        r.0@.len() > 0 ==> (r.1 is Ok <==> forall|pa: Pid, pb: Pid|
            r.0@.contains(pa) && r.0@.contains(pb) ==> (spec_part_weight(weights@, r.0@, pa)
                - spec_part_weight(weights@, r.0@, pb)) * 100 <= (
            settings.imbalance_tol as int) * crate::split::total(weights@)),
{
    let ghost m0 = *minter;
    let n = points.len();
    let k = settings.num_partitions;
    let mut pids: Vec<Pid> = Vec::new();
    let mut t: usize = 0;
    while t < k
        invariant
            0 <= t <= k,
            pids@.len() == t,
            m0.spec_next() + k <= u64::MAX,
            minter.spec_next() == m0.spec_next() + t,
            forall|u: int|
                0 <= u < t ==> !m0.minted(#[trigger] pids@[u]) && minter.minted(pids@[u]),
        decreases k - t,
    {
        let ghost before = *minter;
        let p = minter.fresh();
        proof {
            crate::pid::lemma_unminted_monotone(m0, before, p);
            assert forall|u: int|
                0 <= u < t implies !m0.minted(#[trigger] pids@[u]) && minter.minted(
                pids@[u],
            ) by {
                crate::pid::lemma_minted_monotone(before, *minter, pids@[u]);
            }
        }
        pids.push(p);
        t = t + 1;
    }
    if n == 0 {
        let mut ids: Vec<Pid> = Vec::new();
        let res = balanced_k_means_with_initial_partition(points, weights, settings, &mut ids);
        return (ids, res);
    }
    // Seed along the curve: the sorted order cut into equal runs.
    let keys = if settings.hilbert {
        crate::hilbert_curve::hilbert_indices(points, 16)
    } else {
        crate::z_curve::z_hashes(points, 16)
    };
    let perm = sort_indices_by_key(&keys);
    proof {
        vstd::arithmetic::div_mod::lemma_fundamental_div_mod(n as int, k as int);
        assert(((n as int) % (k as int) != 0 ==> (n as int) / (k as int) < n) && 0 <= (
        n as int) / (k as int) <= n) by (nonlinear_arith)
            requires
                n as int == (k as int) * ((n as int) / (k as int)) + (n as int) % (k as int),
                0 <= (n as int) % (k as int) < k as int,
                n >= 1,
                k >= 1,
            ;
    }
    let block: usize = if n % k == 0 {
        n / k
    } else {
        n / k + 1
    };
    proof {
        vstd::arithmetic::div_mod::lemma_fundamental_div_mod(n as int, k as int);
        assert(block >= 1) by (nonlinear_arith)
            requires
                n as int == (k as int) * ((n as int) / (k as int)) + (n as int) % (k as int),
                0 <= (n as int) % (k as int) < k as int,
                block as int == (n as int) / (k as int) + (if (n as int) % (k as int) == 0 {
                    0int
                } else {
                    1int
                }),
                n >= 1,
                k >= 1;
    }
    let mut ids: Vec<Pid> = Vec::new();
    let mut i: usize = 0;
    while i < n
        invariant
            0 <= i <= n,
            pids@.len() == k,
            k >= 1,
            ids@.len() == i,
            forall|t: int| 0 <= t < i ==> pids@.contains(#[trigger] ids@[t]),
        decreases n - i,
    {
        ids.push(pids[0]);
        proof {
            assert(pids@.contains(pids@[0]));
        }
        i = i + 1;
    }
    let mut r: usize = 0;
    while r < n
        invariant
            0 <= r <= n,
            n == points@.len(),
            perm@.len() == n,
            block >= 1,
            pids@.len() == k,
            k >= 1,
            ids@.len() == n,
            forall|t: int| 0 <= t < n ==> (#[trigger] perm@[t]) < n,
            forall|t: int| 0 <= t < n ==> pids@.contains(#[trigger] ids@[t]),
        decreases n - r,
    {
        let mut c: usize = r / block;
        if c >= k {
            c = k - 1;
        }
        proof {
            vstd::arithmetic::div_mod::lemma_fundamental_div_mod(r as int, block as int);
        }
        ids.set(perm[r], pids[c]);
        proof {
            assert(pids@.contains(pids@[c as int]));
        }
        r = r + 1;
    }
    let ghost seeded = ids@;
    let res = balanced_k_means_with_initial_partition(points, weights, settings, &mut ids);
    proof {
        assert forall|i: int|
            0 <= i < ids@.len() implies !m0.minted(#[trigger] ids@[i]) && minter.minted(
            ids@[i],
        ) by {
            assert(seeded.contains(ids@[i]));
            let u = choose|u: int| 0 <= u < seeded.len() && seeded[u] == ids@[i];
            assert(pids@.contains(seeded[u]));
            let v = choose|v: int| 0 <= v < pids@.len() && pids@[v] == ids@[i];
            assert(!m0.minted(pids@[v]) && minter.minted(pids@[v]));
        }
    }
    (ids, res)
}

} // verus!
