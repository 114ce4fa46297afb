//! Quality measures of a partition: per-part weight totals, imbalance,
//! and per-part aspect ratios.

use vstd::prelude::*;
use crate::geometry::Aabb2D;
use crate::geometry::Point2D;
use crate::geometry::points_in_range;
use crate::pid::Pid;
use crate::split::MAX_POINTS;
use crate::split::WEIGHT_LIMIT;
use crate::split::weights_in_range;

verus! {

/// Total weight of the part labelled `p`.
pub open spec fn spec_part_weight(w: Seq<u64>, ids: Seq<Pid>, p: Pid) -> int
    decreases ids.len(),
{
    if ids.len() == 0 || w.len() != ids.len() {
        0
    } else {
        spec_part_weight(w.drop_last(), ids.drop_last(), p) + if ids.last() == p {
            w.last() as int
        } else {
            0
        }
    }
}

/// A part's weight is bounded by the number of points carrying it.
proof fn lemma_part_weight_bounds(w: Seq<u64>, ids: Seq<Pid>, p: Pid)
    requires
        weights_in_range(w),
    ensures
        0 <= spec_part_weight(w, ids, p) <= ids.len() * (WEIGHT_LIMIT as int),
    decreases ids.len(),
{
    if ids.len() == 0 || w.len() != ids.len() {
        assert(0 <= ids.len() * (WEIGHT_LIMIT as int)) by (nonlinear_arith);
    } else {
        assert(weights_in_range(w.drop_last()));
        lemma_part_weight_bounds(w.drop_last(), ids.drop_last(), p);
        assert((ids.len() - 1) * (WEIGHT_LIMIT as int) + (WEIGHT_LIMIT as int) == ids.len() * (
        WEIGHT_LIMIT as int)) by (nonlinear_arith);
    }
}


/// The index of the first occurrence of a label.
pub open spec fn spec_first_index(ids: Seq<Pid>, p: Pid) -> int
    decreases ids.len(),
{
    if ids.len() == 0 {
        0
    } else if ids[0] == p {
        0
    } else {
        1 + spec_first_index(ids.drop_first(), p)
    }
}

/// The first index carrying `p` is its first occurrence.
pub proof fn lemma_first_index_of(ids: Seq<Pid>, p: Pid, i: int)
    requires
        0 <= i < ids.len(),
        ids[i] == p,
        forall|t: int| 0 <= t < i ==> ids[t] != p,
    ensures
        spec_first_index(ids, p) == i,
    decreases i,
{
    if i == 0 {
    } else {
        assert(ids[0] != p);
        assert(ids.drop_first()[i - 1] == p);
        assert forall|t: int| 0 <= t < i - 1 implies ids.drop_first()[t] != p by {
            assert(ids.drop_first()[t] == ids[t + 1]);
        }
        lemma_first_index_of(ids.drop_first(), p, i - 1);
    }
}

/// The weight of each part of the partition, keyed by part identifier in
/// order of first appearance.
pub fn weights(weights_v: &Vec<u64>, partition: &Vec<Pid>) -> (parts: Vec<(Pid, u64)>)
    requires
        weights_v@.len() == partition@.len(),
        weights_v@.len() <= MAX_POINTS,
        weights_in_range(weights_v@),
    ensures
        forall|j: int, k: int| 0 <= j < k < parts@.len() ==> parts@[j].0 != parts@[k].0,
        forall|p: Pid|
            partition@.contains(p) <==> exists|j: int|
                0 <= j < parts@.len() && (#[trigger] parts@[j]).0 == p,
        forall|j: int|
            0 <= j < parts@.len() ==> (#[trigger] parts@[j]).1 as int == spec_part_weight(
                weights_v@,
                partition@,
                parts@[j].0,
            ),
        forall|j1: int, j2: int|
            0 <= j1 < j2 < parts@.len() ==> spec_first_index(partition@, (#[trigger] parts@[j1]).0)
                < spec_first_index(partition@, (#[trigger] parts@[j2]).0),
{
    let n = partition.len();
    let mut parts: Vec<(Pid, u64)> = Vec::new();
    let mut i: usize = 0;
    while i < n
        invariant
            0 <= i <= n,
            n == partition@.len(),
            n == weights_v@.len(),
            n <= MAX_POINTS,
            weights_in_range(weights_v@),
            forall|j: int, k: int| 0 <= j < k < parts@.len() ==> parts@[j].0 != parts@[k].0,
            forall|p: Pid|
                partition@.subrange(0, i as int).contains(p) <==> exists|j: int|
                    0 <= j < parts@.len() && (#[trigger] parts@[j]).0 == p,
            forall|j: int|
                0 <= j < parts@.len() ==> (#[trigger] parts@[j]).1 as int == spec_part_weight(
                    weights_v@.subrange(0, i as int),
                    partition@.subrange(0, i as int),
                    parts@[j].0,
                ),
            forall|j: int|
                0 <= j < parts@.len() ==> spec_first_index(partition@, (#[trigger] parts@[j]).0)
                    < i,
            forall|j1: int, j2: int|
                0 <= j1 < j2 < parts@.len() ==> spec_first_index(
                    partition@,
                    (#[trigger] parts@[j1]).0,
                ) < spec_first_index(partition@, (#[trigger] parts@[j2]).0),
        decreases n - i,
    {
        let p = partition[i];
        let w = weights_v[i];
        let ghost pre = parts@;
        let ghost wpre = weights_v@.subrange(0, i as int);
        let ghost ipre = partition@.subrange(0, i as int);
        let ghost wcur = weights_v@.subrange(0, i + 1);
        let ghost icur = partition@.subrange(0, i + 1);
        proof {
            assert(wcur.drop_last() =~= wpre);
            assert(icur.drop_last() =~= ipre);
            assert(wcur.last() == weights_v@[i as int]);
            assert(icur.last() == partition@[i as int]);
            assert forall|q: Pid| spec_part_weight(wcur, icur, q) == spec_part_weight(
                wpre,
                ipre,
                q,
            ) + (if partition@[i as int] == q {
                weights_v@[i as int] as int
            } else {
                0
            }) by {}
        }
        let mut found: bool = false;
        let mut idx: usize = 0;
        let mut t: usize = 0;
        while t < parts.len()
            invariant
                0 <= t <= parts@.len(),
                parts@ == pre,
                found ==> idx < parts@.len() && parts@[idx as int].0 == p,
                !found ==> forall|j: int| 0 <= j < t ==> (#[trigger] parts@[j]).0 != p,
            decreases parts@.len() - t,
        {
            if parts[t].0 == p {
                found = true;
                idx = t;
            }
            t = t + 1;
        }
        if found {
            proof {
                assert(parts@[idx as int].1 as int == spec_part_weight(wpre, ipre, parts@[
                    idx as int].0));
                lemma_part_weight_bounds(wpre, ipre, p);
                assert((i as int) * (WEIGHT_LIMIT as int) + (WEIGHT_LIMIT as int) <= (
                MAX_POINTS as int) * (WEIGHT_LIMIT as int) && (MAX_POINTS as int) * (
                WEIGHT_LIMIT as int) < u64::MAX) by (nonlinear_arith)
                    requires i < MAX_POINTS;
            }
            let entry = parts[idx];
            parts.set(idx, (p, entry.1 + w));
            proof {
                assert forall|j: int|
                    0 <= j < parts@.len() implies (#[trigger] parts@[j]).1 as int
                    == spec_part_weight(wcur, icur, parts@[j].0) by {
                    if j != idx {
                        assert(parts@[j] == pre[j]);
                        assert(pre[j].0 != p);
                    }
                }
                assert forall|q: Pid|
                    icur.contains(q) implies exists|j: int|
                    0 <= j < parts@.len() && (#[trigger] parts@[j]).0 == q by {
                    let u = choose|u: int| 0 <= u < icur.len() && icur[u] == q;
                    if u < i {
                        assert(ipre[u] == q);
                        assert(ipre.contains(q));
                        let j = choose|j: int| 0 <= j < pre.len() && (#[trigger] pre[j]).0 == q;
                        if j == idx {
                            assert(parts@[j].0 == p);
                            assert(pre[j].0 == p);
                        } else {
                            assert(parts@[j] == pre[j]);
                        }
                        assert(parts@[j].0 == q);
                    } else {
                        assert(q == p);
                        assert(parts@[idx as int].0 == p);
                    }
                }
                assert forall|q: Pid|
                    (exists|j: int| 0 <= j < parts@.len() && (#[trigger] parts@[j]).0 == q)
                        implies icur.contains(q) by {
                    let j = choose|j: int|
                        0 <= j < parts@.len() && (#[trigger] parts@[j]).0 == q;
                    assert(pre[j].0 == q);
                    assert(ipre.contains(q) || q == p);
                    if ipre.contains(q) {
                        let u = choose|u: int| 0 <= u < ipre.len() && ipre[u] == q;
                        assert(icur[u] == q);
                    } else {
                        assert(icur[i as int] == p);
                    }
                }
            }
        } else {
            parts.push((p, w));
            proof {
                // The new label appears here first.
                assert forall|t: int| 0 <= t < i implies partition@[t] != p by {
                    if partition@[t] == p {
                        assert(ipre[t] == p);
                        assert(ipre.contains(p));
                        let j = choose|j: int| 0 <= j < pre.len() && (#[trigger] pre[j]).0 == p;
                        assert(pre[j].0 != p);
                    }
                }
                lemma_first_index_of(partition@, p, i as int);
                assert forall|q: Pid|
                    icur.contains(q) implies exists|j: int|
                    0 <= j < parts@.len() && (#[trigger] parts@[j]).0 == q by {
                    let u = choose|u: int| 0 <= u < icur.len() && icur[u] == q;
                    if u < i {
                        assert(ipre[u] == q);
                        assert(ipre.contains(q));
                        let j = choose|j: int| 0 <= j < pre.len() && (#[trigger] pre[j]).0 == q;
                        assert(parts@[j].0 == q);
                    } else {
                        assert(parts@[parts@.len() - 1].0 == p);
                    }
                }
                assert forall|q: Pid|
                    (exists|j: int| 0 <= j < parts@.len() && (#[trigger] parts@[j]).0 == q)
                        implies icur.contains(q) by {
                    let j = choose|j: int|
                        0 <= j < parts@.len() && (#[trigger] parts@[j]).0 == q;
                    if j < pre.len() {
                        assert(pre[j].0 == q);
                        assert(ipre.contains(q));
                        let u = choose|u: int| 0 <= u < ipre.len() && ipre[u] == q;
                        assert(icur[u] == q);
                    } else {
                        assert(q == p);
                        assert(icur[i as int] == p);
                    }
                }
                assert forall|j: int|
                    0 <= j < parts@.len() implies (#[trigger] parts@[j]).1 as int
                    == spec_part_weight(wcur, icur, parts@[j].0) by {
                    if j < pre.len() {
                        assert(parts@[j].0 != p);
                    } else {
                        lemma_part_weight_bounds(wpre, ipre, p);
                        assert(spec_part_weight(wpre, ipre, p) == 0) by {
                            lemma_absent_part_weight(wpre, ipre, p);
                        }
                    }
                }
            }
        }
        i = i + 1;
    }
    proof {
        assert(partition@.subrange(0, n as int) =~= partition@);
        assert(weights_v@.subrange(0, n as int) =~= weights_v@);
    }
    parts
}

/// A part that labels no point has weight zero.
proof fn lemma_absent_part_weight(w: Seq<u64>, ids: Seq<Pid>, p: Pid)
    requires
        !ids.contains(p),
    ensures
        spec_part_weight(w, ids, p) == 0,
    decreases ids.len(),
{
    if ids.len() != 0 && w.len() == ids.len() {
        assert(!ids.drop_last().contains(p)) by {
            if ids.drop_last().contains(p) {
                let u = choose|u: int| 0 <= u < ids.len() - 1 && ids.drop_last()[u] == p;
                assert(ids[u] == p);
            }
        }
        assert(ids.last() != p) by {
            assert(ids[ids.len() - 1] == ids.last());
        }
        lemma_absent_part_weight(w.drop_last(), ids.drop_last(), p);
    }
}

/// The largest difference between the weights of two parts: the heaviest
/// part's weight minus the lightest part's.  An empty partition has no
/// imbalance.
pub fn imbalance_max_diff(weights_v: &Vec<u64>, partition: &Vec<Pid>) -> (r: u64)
    requires
        weights_v@.len() == partition@.len(),
        weights_v@.len() <= MAX_POINTS,
        weights_in_range(weights_v@),
    ensures
        partition@.len() == 0 ==> r == 0,
        partition@.len() > 0 ==> exists|pa: Pid, pb: Pid|
            partition@.contains(pa) && partition@.contains(pb) && r as int == spec_part_weight(
                weights_v@,
                partition@,
                pa,
            ) - spec_part_weight(weights_v@, partition@, pb),
        forall|pa: Pid, pb: Pid|
            partition@.contains(pa) && partition@.contains(pb) ==> spec_part_weight(
                weights_v@,
                partition@,
                pa,
            ) - spec_part_weight(weights_v@, partition@, pb) <= r as int,
{
    let parts = weights(weights_v, partition);
    if parts.len() == 0 {
        proof {
            if partition@.len() > 0 {
                assert(partition@.contains(partition@[0]));
            }
        }
        return 0;
    }
    let mut max_w: u64 = parts[0].1;
    let mut min_w: u64 = parts[0].1;
    let mut t: usize = 1;
    while t < parts.len()
        invariant
            1 <= t <= parts@.len(),
            parts@.len() >= 1,
            min_w <= max_w,
            exists|j: int| 0 <= j < t && (#[trigger] parts@[j]).1 == max_w,
            exists|j: int| 0 <= j < t && (#[trigger] parts@[j]).1 == min_w,
            forall|j: int| 0 <= j < t ==> min_w <= (#[trigger] parts@[j]).1 <= max_w,
        decreases parts@.len() - t,
    {
        let w = parts[t].1;
        if w > max_w {
            max_w = w;
        }
        if w < min_w {
            min_w = w;
        }
        proof {
            assert(parts@[t as int].1 == w);
        }
        t = t + 1;
    }
    proof {
        let jm = choose|j: int| 0 <= j < parts@.len() && (#[trigger] parts@[j]).1 == max_w;
        let jn = choose|j: int| 0 <= j < parts@.len() && (#[trigger] parts@[j]).1 == min_w;
        assert(exists|j: int| 0 <= j < parts@.len() && (#[trigger] parts@[j]).0 == parts@[jm].0);
        assert(exists|j: int| 0 <= j < parts@.len() && (#[trigger] parts@[j]).0 == parts@[jn].0);
        assert(partition@.contains(parts@[jm].0));
        assert(partition@.contains(parts@[jn].0));
        assert forall|pa: Pid, pb: Pid|
            partition@.contains(pa) && partition@.contains(pb) implies spec_part_weight(
            weights_v@,
            partition@,
            pa,
        ) - spec_part_weight(weights_v@, partition@, pb) <= (max_w - min_w) as int by {
            let ja = choose|j: int| 0 <= j < parts@.len() && (#[trigger] parts@[j]).0 == pa;
            let jb = choose|j: int| 0 <= j < parts@.len() && (#[trigger] parts@[j]).0 == pb;
            assert(parts@[ja].1 <= max_w);
            assert(parts@[jb].1 >= min_w);
        }
    }
    max_w - min_w
}

/// The imbalance of the partition relative to the total weight: the
/// largest difference between two parts' weights, as a fraction
/// `(numerator, denominator)` of the total weight.  An empty input has
/// no imbalance: both components are zero.
pub fn imbalance_relative_diff(weights_v: &Vec<u64>, partition: &Vec<Pid>) -> (r: (u64, u64))
    requires
        weights_v@.len() == partition@.len(),
        weights_v@.len() <= MAX_POINTS,
        weights_in_range(weights_v@),
    ensures
        r.1 as int == crate::split::total(weights_v@),
        partition@.len() == 0 ==> r.0 == 0,
        partition@.len() > 0 ==> exists|pa: Pid, pb: Pid|
            partition@.contains(pa) && partition@.contains(pb) && r.0 as int == spec_part_weight(
                weights_v@,
                partition@,
                pa,
            ) - spec_part_weight(weights_v@, partition@, pb),
        forall|pa: Pid, pb: Pid|
            partition@.contains(pa) && partition@.contains(pb) ==> spec_part_weight(
                weights_v@,
                partition@,
                pa,
            ) - spec_part_weight(weights_v@, partition@, pb) <= r.0 as int,
{
    let d = imbalance_max_diff(weights_v, partition);
    let n = weights_v.len();
    let mut tot: u64 = 0;
    let mut i: usize = 0;
    proof {
        crate::split::lemma_total_bounded(weights_v@);
    }
    while i < n
        invariant
            0 <= i <= n,
            n == weights_v@.len(),
            weights_in_range(weights_v@),
            n <= MAX_POINTS,
            tot == crate::split::csum(weights_v@, i as int),
        decreases n - i,
    {
        proof {
            crate::split::lemma_csum_mono(weights_v@, i + 1, n as int);
            crate::split::lemma_csum_nonneg(weights_v@, i as int);
            crate::split::lemma_total_bounded(weights_v@);
        }
        tot = tot + weights_v[i];
        i = i + 1;
    }
    (d, tot)
}


/// The points of the part labelled `p`, in input order.
pub open spec fn spec_part_points(points: Seq<Point2D>, ids: Seq<Pid>, p: Pid) -> Seq<Point2D>
    decreases ids.len(),
{
    if ids.len() == 0 || points.len() != ids.len() {
        Seq::empty()
    } else {
        spec_part_points(points.drop_last(), ids.drop_last(), p) + if ids.last() == p {
            seq![points.last()]
        } else {
            Seq::empty()
        }
    }
}

/// A part that appears in the labelling holds at least one point.
proof fn lemma_part_points_nonempty(points: Seq<Point2D>, ids: Seq<Pid>, p: Pid)
    requires
        points.len() == ids.len(),
        ids.contains(p),
    ensures
        spec_part_points(points, ids, p).len() >= 1,
    decreases ids.len(),
{
    if ids.last() == p {
    } else {
        let u = choose|u: int| 0 <= u < ids.len() && ids[u] == p;
        assert(ids.drop_last()[u] == p);
        assert(ids.drop_last().contains(p));
        lemma_part_points_nonempty(points.drop_last(), ids.drop_last(), p);
    }
}

/// Every point of a part lies on the grid when the whole set does.
proof fn lemma_part_points_in_range(points: Seq<Point2D>, ids: Seq<Pid>, p: Pid)
    requires
        points_in_range(points),
    ensures
        points_in_range(spec_part_points(points, ids, p)),
    decreases ids.len(),
{
    if ids.len() == 0 || points.len() != ids.len() {
    } else {
        assert(points_in_range(points.drop_last())) by {
            assert forall|i: int|
                0 <= i < points.len() - 1 implies (#[trigger] points.drop_last()[i]).in_range()
                by {
                assert(points.drop_last()[i] == points[i]);
            }
        }
        lemma_part_points_in_range(points.drop_last(), ids.drop_last(), p);
        let sub = spec_part_points(points.drop_last(), ids.drop_last(), p);
        assert forall|i: int|
            0 <= i < spec_part_points(points, ids, p).len() implies (#[trigger] spec_part_points(
            points,
            ids,
            p,
        )[i]).in_range() by {
            if i < sub.len() {
                assert(spec_part_points(points, ids, p)[i] == sub[i]);
            } else {
                assert(spec_part_points(points, ids, p)[i] == points.last());
            }
        }
    }
}

/// The aspect ratio of each part: the extents of the part's bounding box,
/// longest axis first, keyed by part identifier in order of first
/// appearance.  The ratio itself is the quotient `long / short` of the
/// two returned extents.
pub fn aspect_ratios(partition_ids: &Vec<Pid>, points: &Vec<Point2D>) -> (ratios: Vec<
    (Pid, u64, u64),
>)
    requires
        partition_ids@.len() == points@.len(),
        points_in_range(points@),
    ensures
        forall|j: int, k: int| 0 <= j < k < ratios@.len() ==> ratios@[j].0 != ratios@[k].0,
        forall|p: Pid|
            partition_ids@.contains(p) <==> exists|j: int|
                0 <= j < ratios@.len() && (#[trigger] ratios@[j]).0 == p,
        forall|j1: int, j2: int|
            0 <= j1 < j2 < ratios@.len() ==> spec_first_index(
                partition_ids@,
                (#[trigger] ratios@[j1]).0,
            ) < spec_first_index(partition_ids@, (#[trigger] ratios@[j2]).0),
        forall|j: int|
            0 <= j < ratios@.len() ==> {
                let b = Aabb2D::spec_from_points(
                    spec_part_points(points@, partition_ids@, (#[trigger] ratios@[j]).0),
                );
                let ex = b.max.x - b.min.x;
                let ey = b.max.y - b.min.y;
                ratios@[j].1 == (if ex >= ey {
                    ex
                } else {
                    ey
                }) && ratios@[j].2 == (if ex >= ey {
                    ey
                } else {
                    ex
                })
            },
{
    let n = partition_ids.len();
    // Distinct identifiers in order of first appearance.
    let mut pids: Vec<Pid> = Vec::new();
    let mut i: usize = 0;
    while i < n
        invariant
            0 <= i <= n,
            n == partition_ids@.len(),
            forall|j: int, k: int| 0 <= j < k < pids@.len() ==> pids@[j] != pids@[k],
            forall|p: Pid|
                partition_ids@.subrange(0, i as int).contains(p) <==> pids@.contains(p),
            forall|j: int|
                0 <= j < pids@.len() ==> spec_first_index(partition_ids@, #[trigger] pids@[j])
                    < i,
            forall|j1: int, j2: int|
                0 <= j1 < j2 < pids@.len() ==> spec_first_index(
                    partition_ids@,
                    #[trigger] pids@[j1],
                ) < spec_first_index(partition_ids@, #[trigger] pids@[j2]),
        decreases n - i,
    {
        let p = partition_ids[i];
        let mut seen: bool = false;
        let mut t: usize = 0;
        while t < pids.len()
            invariant
                0 <= t <= pids@.len(),
                seen ==> pids@.contains(p),
                !seen ==> forall|j: int| 0 <= j < t ==> (#[trigger] pids@[j]) != p,
            decreases pids@.len() - t,
        {
            if pids[t] == p {
                seen = true;
                proof {
                    assert(pids@[t as int] == p);
                }
            }
            t = t + 1;
        }
        let ghost pre = pids@;
        if !seen {
            pids.push(p);
            proof {
                // This label appears here first.
                assert forall|t: int| 0 <= t < i implies partition_ids@[t] != p by {
                    if partition_ids@[t] == p {
                        assert(partition_ids@.subrange(0, i as int)[t] == p);
                        assert(partition_ids@.subrange(0, i as int).contains(p));
                        assert(pre.contains(p));
                        let j = choose|j: int| 0 <= j < pre.len() && pre[j] == p;
                        assert(pre[j] != p);
                        assert(false);
                    }
                }
                lemma_first_index_of(partition_ids@, p, i as int);
            }
        }
        proof {
            assert forall|q: Pid|
                partition_ids@.subrange(0, i + 1).contains(q) implies pids@.contains(q) by {
                let u = choose|u: int|
                    0 <= u < i + 1 && #[trigger] partition_ids@.subrange(0, i + 1)[u] == q;
                if u < i {
                    assert(partition_ids@.subrange(0, i as int)[u] == q);
                    assert(partition_ids@.subrange(0, i as int).contains(q));
                    assert(pre.contains(q));
                    let j = choose|j: int| 0 <= j < pre.len() && pre[j] == q;
                    assert(pids@[j] == q);
                } else {
                    assert(q == p);
                    if seen {
                    } else {
                        assert(pids@[pids@.len() - 1] == p);
                    }
                }
            }
            assert forall|q: Pid|
                pids@.contains(q) implies partition_ids@.subrange(0, i + 1).contains(q) by {
                let j = choose|j: int| 0 <= j < pids@.len() && pids@[j] == q;
                if j < pre.len() {
                    assert(pre[j] == q);
                    assert(pre.contains(q));
                    assert(partition_ids@.subrange(0, i as int).contains(q));
                    let u = choose|u: int|
                        0 <= u < i && partition_ids@.subrange(0, i as int)[u] == q;
                    assert(partition_ids@.subrange(0, i + 1)[u] == q);
                } else {
                    assert(q == p);
                    assert(partition_ids@.subrange(0, i + 1)[i as int] == p);
                }
            }
        }
        i = i + 1;
    }
    proof {
        assert(partition_ids@.subrange(0, n as int) =~= partition_ids@);
    }
    // The bounding box of each part.
    let mut ratios: Vec<(Pid, u64, u64)> = Vec::new();
    let mut t: usize = 0;
    while t < pids.len()
        invariant
            0 <= t <= pids@.len(),
            n == partition_ids@.len(),
            n == points@.len(),
            points_in_range(points@),
            forall|j: int, k: int| 0 <= j < k < pids@.len() ==> pids@[j] != pids@[k],
            forall|p: Pid| partition_ids@.contains(p) <==> pids@.contains(p),
            forall|j1: int, j2: int|
                0 <= j1 < j2 < pids@.len() ==> spec_first_index(
                    partition_ids@,
                    #[trigger] pids@[j1],
                ) < spec_first_index(partition_ids@, #[trigger] pids@[j2]),
            ratios@.len() == t,
            forall|j: int| 0 <= j < t ==> (#[trigger] ratios@[j]).0 == pids@[j],
            forall|j: int|
                0 <= j < t ==> {
                    let b = Aabb2D::spec_from_points(
                        spec_part_points(points@, partition_ids@, (#[trigger] ratios@[j]).0),
                    );
                    let ex = b.max.x - b.min.x;
                    let ey = b.max.y - b.min.y;
                    ratios@[j].1 == (if ex >= ey {
                        ex
                    } else {
                        ey
                    }) && ratios@[j].2 == (if ex >= ey {
                        ey
                    } else {
                        ex
                    })
                },
        decreases pids@.len() - t,
    {
        let p = pids[t];
        let mut pts: Vec<Point2D> = Vec::new();
        let mut u: usize = 0;
        while u < n
            invariant
                0 <= u <= n,
                n == partition_ids@.len(),
                n == points@.len(),
                pts@ == spec_part_points(
                    points@.subrange(0, u as int),
                    partition_ids@.subrange(0, u as int),
                    p,
                ),
            decreases n - u,
        {
            proof {
                assert(points@.subrange(0, u + 1).drop_last() =~= points@.subrange(0, u as int));
                assert(partition_ids@.subrange(0, u + 1).drop_last() =~= partition_ids@.subrange(
                    0,
                    u as int,
                ));
                assert(points@.subrange(0, u + 1).last() == points@[u as int]);
                assert(partition_ids@.subrange(0, u + 1).last() == partition_ids@[u as int]);
            }
            if partition_ids[u] == p {
                pts.push(points[u]);
                proof {
                    assert(pts@ =~= spec_part_points(
                        points@.subrange(0, u + 1),
                        partition_ids@.subrange(0, u + 1),
                        p,
                    ));
                }
            } else {
                proof {
                    assert(pts@ =~= spec_part_points(
                        points@.subrange(0, u + 1),
                        partition_ids@.subrange(0, u + 1),
                        p,
                    ));
                }
            }
            u = u + 1;
        }
        proof {
            assert(points@.subrange(0, n as int) =~= points@);
            assert(partition_ids@.subrange(0, n as int) =~= partition_ids@);
            assert(pids@.contains(pids@[t as int]));
            assert(partition_ids@.contains(p));
            lemma_part_points_nonempty(points@, partition_ids@, p);
            lemma_part_points_in_range(points@, partition_ids@, p);
        }
        let b = Aabb2D::from_points(&pts);
        let (ex, ey) = b.extents();
        if ex >= ey {
            ratios.push((p, ex, ey));
        } else {
            ratios.push((p, ey, ex));
        }
        t = t + 1;
    }
    proof {
        assert forall|p: Pid|
            partition_ids@.contains(p) implies exists|j: int|
            0 <= j < ratios@.len() && (#[trigger] ratios@[j]).0 == p by {
            assert(pids@.contains(p));
            let j = choose|j: int| 0 <= j < pids@.len() && pids@[j] == p;
            assert(ratios@[j].0 == p);
        }
        assert forall|p: Pid|
            (exists|j: int| 0 <= j < ratios@.len() && (#[trigger] ratios@[j]).0 == p)
                implies partition_ids@.contains(p) by {
            let j = choose|j: int| 0 <= j < ratios@.len() && (#[trigger] ratios@[j]).0 == p;
            assert(pids@[j] == p);
            assert(pids@.contains(p));
        }
    }
    ratios
}

} // verus!
