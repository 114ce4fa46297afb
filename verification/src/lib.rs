//! Composable mesh-partitioning algorithms.
//!
//! The crate partitions a finite set of weighted points into a requested
//! number of parts so that the total weight per part is approximately
//! balanced and, when an adjacency graph is given, few edges are cut.
//! Coordinates and weights are fixed-point integers; callers quantize
//! floating-point input before handing it to the library.
//!
//! Each algorithm is a struct implementing one of two traits:
//! [`InitialPartition`] creates a partition from points and weights,
//! [`ImprovePartition`] improves an existing one in place.  Composing an
//! initial partitioner with an improver yields a new initial partitioner;
//! composing two improvers yields an improver.

use vstd::prelude::*;

pub mod analysis;
pub mod error;
pub mod geometry;
pub mod graph;
pub mod hilbert_curve;
pub mod k_means;
pub mod medit;
pub mod multi_jagged;
pub mod partition;
pub mod pid;
pub mod recursive_bisection;
pub mod refine;
pub mod scotch;
pub mod sort;
pub mod split;
pub mod z_curve;

use crate::geometry::Point2D;
use crate::geometry::points_in_range;
use crate::k_means::BalancedKmeansSettings;
use crate::k_means::balanced_k_means_with_initial_partition;
use crate::pid::Pid;
use crate::pid::PidMinter;
use crate::split::MAX_POINTS;
use crate::split::weights_in_range;
use vstd::arithmetic::power2::pow2;

verus! {

/// An algorithm that creates a partition: one identifier per point,
/// every identifier freshly minted by the call.
pub trait InitialPartition: Sized {
    /// The inputs and minter states the algorithm accepts.
    spec fn partition_pre(&self, points: Seq<Point2D>, weights: Seq<u64>, pre: PidMinter) -> bool;

    /// What one run guarantees, relating the minter states before and
    /// after to the identifiers produced.
    spec fn partition_post(
        &self,
        points: Seq<Point2D>,
        weights: Seq<u64>,
        pre: PidMinter,
        ids: Seq<Pid>,
        post: PidMinter,
    ) -> bool;

    /// Partition the points: one identifier per point, each minted by
    /// this very call.
    fn partition(
        &self,
        points: &Vec<Point2D>,
        weights: &Vec<u64>,
        minter: &mut PidMinter,
    ) -> (ids: Vec<Pid>)
        requires
            points@.len() == weights@.len(),
            points@.len() <= MAX_POINTS,
            points_in_range(points@),
            weights_in_range(weights@),
            self.partition_pre(points@, weights@, *old(minter)),
        ensures
            ids@.len() == points@.len(),
            forall|i: int|
                0 <= i < ids@.len() ==> !old(minter).minted(#[trigger] ids@[i])
                    && final(minter).minted(ids@[i]),
            old(minter).spec_next() <= final(minter).spec_next(),
            self.partition_post(points@, weights@, *old(minter), ids@, *final(minter)),
    ;
}

/// An algorithm that improves an existing partition in place, reusing
/// only the labels the partition already carries.  A run that did not
/// reach its goal still leaves a valid partition and says so in its
/// outcome, as a soft error.
pub trait ImprovePartition: Sized {
    /// The inputs the algorithm accepts.
    spec fn improve_pre(&self, points: Seq<Point2D>, weights: Seq<u64>, ids: Seq<Pid>) -> bool;

    /// What one run guarantees, relating the labelling before and after
    /// and the reported outcome.
    spec fn improve_post(
        &self,
        points: Seq<Point2D>,
        weights: Seq<u64>,
        old_ids: Seq<Pid>,
        new_ids: Seq<Pid>,
        outcome: Result<(), crate::error::Error>,
    ) -> bool;

    /// Improve the labelling in place.
    fn improve_partition(
        &self,
        points: &Vec<Point2D>,
        weights: &Vec<u64>,
        partition: &mut Vec<Pid>,
    ) -> (outcome: Result<(), crate::error::Error>)
        requires
            points@.len() == weights@.len(),
            points@.len() == old(partition)@.len(),
            points@.len() <= MAX_POINTS,
            points_in_range(points@),
            weights_in_range(weights@),
            self.improve_pre(points@, weights@, old(partition)@),
        ensures
            final(partition)@.len() == old(partition)@.len(),
            forall|i: int|
                0 <= i < final(partition)@.len() ==> old(partition)@.contains(
                    #[trigger] final(partition)@[i],
                ),
            self.improve_post(points@, weights@, old(partition)@, final(partition)@, outcome),
    ;
}

/// Recursive coordinate bisection: `num_iter` levels of weighted-median
/// cuts along alternating axes, `2^num_iter` parts at most.
pub struct Rcb {
    pub num_iter: usize,
}

impl InitialPartition for Rcb {
    open spec fn partition_pre(
        &self,
        points: Seq<Point2D>,
        weights: Seq<u64>,
        pre: PidMinter,
    ) -> bool {
        &&& self.num_iter <= 62
        &&& pre.spec_next() + 1 + pow2(self.num_iter as nat) <= u64::MAX
    }

    open spec fn partition_post(
        &self,
        points: Seq<Point2D>,
        weights: Seq<u64>,
        pre: PidMinter,
        ids: Seq<Pid>,
        post: PidMinter,
    ) -> bool {
        &&& forall|i: int|
            0 <= i < ids.len() ==> pre.spec_next() < (#[trigger] ids[i]).spec_id()
                < pre.spec_next() + 1 + pow2(self.num_iter as nat)
        &&& post.spec_next() <= pre.spec_next() + 1 + pow2(self.num_iter as nat)
    }

    fn partition(
        &self,
        points: &Vec<Point2D>,
        weights: &Vec<u64>,
        minter: &mut PidMinter,
    ) -> (ids: Vec<Pid>) {
        crate::recursive_bisection::rcb(points, weights, self.num_iter, minter)
    }
}

/// Recursive inertial bisection: as [`Rcb`], but each subset is cut along
/// its own principal axis of inertia.
pub struct Rib {
    pub num_iter: usize,
}

impl InitialPartition for Rib {
    open spec fn partition_pre(
        &self,
        points: Seq<Point2D>,
        weights: Seq<u64>,
        pre: PidMinter,
    ) -> bool {
        &&& self.num_iter <= 62
        &&& pre.spec_next() + 1 + pow2(self.num_iter as nat) <= u64::MAX
    }

    open spec fn partition_post(
        &self,
        points: Seq<Point2D>,
        weights: Seq<u64>,
        pre: PidMinter,
        ids: Seq<Pid>,
        post: PidMinter,
    ) -> bool {
        &&& forall|i: int|
            0 <= i < ids.len() ==> pre.spec_next() < (#[trigger] ids[i]).spec_id()
                < pre.spec_next() + 1 + pow2(self.num_iter as nat)
        &&& post.spec_next() <= pre.spec_next() + 1 + pow2(self.num_iter as nat)
    }

    fn partition(
        &self,
        points: &Vec<Point2D>,
        weights: &Vec<u64>,
        minter: &mut PidMinter,
    ) -> (ids: Vec<Pid>) {
        crate::recursive_bisection::rib(points, weights, self.num_iter, minter)
    }
}

/// The multi-jagged splitter for a requested part count within an
/// iteration budget.
pub struct MultiJagged {
    pub num_partitions: usize,
    pub max_iter: usize,
}

impl InitialPartition for MultiJagged {
    open spec fn partition_pre(
        &self,
        points: Seq<Point2D>,
        weights: Seq<u64>,
        pre: PidMinter,
    ) -> bool {
        &&& 1 <= self.num_partitions <= u32::MAX
        &&& 1 <= self.max_iter
        &&& pre.spec_next() + 1 + self.num_partitions <= u64::MAX
    }

    open spec fn partition_post(
        &self,
        points: Seq<Point2D>,
        weights: Seq<u64>,
        pre: PidMinter,
        ids: Seq<Pid>,
        post: PidMinter,
    ) -> bool {
        &&& forall|i: int|
            0 <= i < ids.len() ==> pre.spec_next() < (#[trigger] ids[i]).spec_id()
                < pre.spec_next() + 1 + self.num_partitions
        &&& post.spec_next() == pre.spec_next() + 1 + self.num_partitions
    }

    fn partition(
        &self,
        points: &Vec<Point2D>,
        weights: &Vec<u64>,
        minter: &mut PidMinter,
    ) -> (ids: Vec<Pid>) {
        crate::multi_jagged::multi_jagged(
            points,
            weights,
            self.num_partitions,
            self.max_iter,
            minter,
        )
    }
}

/// The Z-order space-filling-curve partitioner.
pub struct ZCurve {
    pub num_partitions: usize,
    pub order: u32,
}

impl InitialPartition for ZCurve {
    open spec fn partition_pre(
        &self,
        points: Seq<Point2D>,
        weights: Seq<u64>,
        pre: PidMinter,
    ) -> bool {
        &&& 1 <= self.num_partitions
        &&& self.order <= crate::z_curve::MAX_ORDER
        &&& pre.spec_next() + self.num_partitions <= u64::MAX
    }

    open spec fn partition_post(
        &self,
        points: Seq<Point2D>,
        weights: Seq<u64>,
        pre: PidMinter,
        ids: Seq<Pid>,
        post: PidMinter,
    ) -> bool {
        &&& forall|i: int|
            0 <= i < ids.len() ==> pre.spec_next() <= (#[trigger] ids[i]).spec_id()
                < pre.spec_next() + self.num_partitions
        &&& post.spec_next() == pre.spec_next() + self.num_partitions
    }

    fn partition(
        &self,
        points: &Vec<Point2D>,
        weights: &Vec<u64>,
        minter: &mut PidMinter,
    ) -> (ids: Vec<Pid>) {
        crate::z_curve::z_curve_partition(points, weights, self.num_partitions, self.order, minter)
    }
}

/// The Hilbert space-filling-curve partitioner.
pub struct HilbertCurve {
    pub num_partitions: usize,
    pub order: u32,
}

impl InitialPartition for HilbertCurve {
    open spec fn partition_pre(
        &self,
        points: Seq<Point2D>,
        weights: Seq<u64>,
        pre: PidMinter,
    ) -> bool {
        &&& 1 <= self.num_partitions
        &&& 1 <= self.order <= crate::hilbert_curve::MAX_HILBERT_ORDER
        &&& pre.spec_next() + self.num_partitions <= u64::MAX
    }

    open spec fn partition_post(
        &self,
        points: Seq<Point2D>,
        weights: Seq<u64>,
        pre: PidMinter,
        ids: Seq<Pid>,
        post: PidMinter,
    ) -> bool {
        &&& forall|i: int|
            0 <= i < ids.len() ==> pre.spec_next() <= (#[trigger] ids[i]).spec_id()
                < pre.spec_next() + self.num_partitions
        &&& post.spec_next() == pre.spec_next() + self.num_partitions
    }

    fn partition(
        &self,
        points: &Vec<Point2D>,
        weights: &Vec<u64>,
        minter: &mut PidMinter,
    ) -> (ids: Vec<Pid>) {
        crate::hilbert_curve::hilbert_curve_partition(
            points,
            weights,
            self.num_partitions,
            self.order,
            minter,
        )
    }
}

/// The balanced k-means improver.
pub struct KMeans {
    pub num_partitions: usize,
    /// Tolerated relative imbalance, in percent of the total weight.
    pub imbalance_tol: u64,
    pub delta_threshold: u64,
    pub max_iter: usize,
    pub max_balance_iter: usize,
    /// Experimental erosion switch: accepted, but a no-op.
    pub erode: bool,
    /// Seed the clusters along the Hilbert curve instead of the Z curve.
    pub hilbert: bool,
    /// Experimental bounding-box early-break switch: accepted, but a no-op.
    pub mbr_early_break: bool,
}

impl Default for KMeans {
    /// The default configuration: seven parts, a tolerated relative
    /// imbalance of five percent of the total weight, convergence once
    /// the centroids stop moving, and the experimental switches off.
    fn default() -> (r: KMeans)
        ensures
            r.num_partitions == 7,
            r.imbalance_tol == 5,
            r.delta_threshold == 1,
            r.max_iter == 500,
            r.max_balance_iter == 20,
            !r.erode,
            r.hilbert,
            !r.mbr_early_break,
    {
        KMeans {
            num_partitions: 7,
            imbalance_tol: 5,
            delta_threshold: 1,
            max_iter: 500,
            max_balance_iter: 20,
            erode: false,
            hilbert: true,
            mbr_early_break: false,
        }
    }
}

impl ImprovePartition for KMeans {
    open spec fn improve_pre(
        &self,
        points: Seq<Point2D>,
        weights: Seq<u64>,
        ids: Seq<Pid>,
    ) -> bool {
        true
    }

    /// Law: the run converged — reported `Ok` — exactly when the relative
    /// imbalance of the final part weights is within `imbalance_tol`
    /// percent of the total weight; otherwise the outcome is the soft
    /// not-converged error and the labelling is still a valid partition.
    open spec fn improve_post(
        &self,
        points: Seq<Point2D>,
        weights: Seq<u64>,
        old_ids: Seq<Pid>,
        new_ids: Seq<Pid>,
        outcome: Result<(), crate::error::Error>,
    ) -> bool {
        &&& (outcome is Err ==> outcome == Result::<(), crate::error::Error>::Err(
            crate::error::Error::NotConverged,
        ))
        &&& (new_ids.len() == 0 ==> outcome is Ok)
        &&& (new_ids.len() > 0 ==> (outcome is Ok <==> forall|pa: Pid, pb: Pid|
            new_ids.contains(pa) && new_ids.contains(pb) ==> (
            crate::analysis::spec_part_weight(weights, new_ids, pa)
                - crate::analysis::spec_part_weight(weights, new_ids, pb)) * 100 <= (
            self.imbalance_tol as int) * crate::split::total(weights)))
    }

    fn improve_partition(
        &self,
        points: &Vec<Point2D>,
        weights: &Vec<u64>,
        partition: &mut Vec<Pid>,
    ) -> (outcome: Result<(), crate::error::Error>) {
        let settings = BalancedKmeansSettings {
            num_partitions: self.num_partitions,
            imbalance_tol: self.imbalance_tol,
            delta_threshold: self.delta_threshold,
            max_iter: self.max_iter,
            max_balance_iter: self.max_balance_iter,
            erode: self.erode,
            hilbert: self.hilbert,
            mbr_early_break: self.mbr_early_break,
        };
        balanced_k_means_with_initial_partition(points, weights, &settings, partition)
    }
}

/// Two partitioning stages fused into one: an initial partitioner
/// followed by an improver is an initial partitioner, an improver
/// followed by an improver is an improver.
pub struct Composition<T, U> {
    first: T,
    second: U,
}

impl<T, U> Composition<T, U> {
    /// The first stage.
    pub closed spec fn spec_first(&self) -> &T {
        &self.first
    }

    /// The second stage.
    pub closed spec fn spec_second(&self) -> &U {
        &self.second
    }
}

impl<T: InitialPartition, U: ImprovePartition> InitialPartition for Composition<T, U> {
    open spec fn partition_pre(
        &self,
        points: Seq<Point2D>,
        weights: Seq<u64>,
        pre: PidMinter,
    ) -> bool {
        &&& self.spec_first().partition_pre(points, weights, pre)
        &&& forall|mid: Seq<Pid>, post: PidMinter|
            (#[trigger] self.spec_first().partition_post(points, weights, pre, mid, post))
                && mid.len() == points.len() ==> self.spec_second().improve_pre(
                points,
                weights,
                mid,
            )
    }

    /// Law: a composed run is exactly the improver applied to the initial
    /// partitioner's output.
    open spec fn partition_post(
        &self,
        points: Seq<Point2D>,
        weights: Seq<u64>,
        pre: PidMinter,
        ids: Seq<Pid>,
        post: PidMinter,
    ) -> bool {
        exists|mid: Seq<Pid>, outcome: Result<(), crate::error::Error>|
            {
                &&& self.spec_first().partition_post(points, weights, pre, mid, post)
                &&& #[trigger] self.spec_second().improve_post(points, weights, mid, ids, outcome)
                &&& forall|i: int| 0 <= i < ids.len() ==> mid.contains(#[trigger] ids[i])
            }
    }

    fn partition(
        &self,
        points: &Vec<Point2D>,
        weights: &Vec<u64>,
        minter: &mut PidMinter,
    ) -> (ids: Vec<Pid>) {
        let ghost pre = *minter;
        let mut ids = self.first.partition(points, weights, minter);
        let ghost mid = ids@;
        let _ = self.second.improve_partition(points, weights, &mut ids);
        proof {
            assert forall|i: int|
                0 <= i < ids@.len() implies !pre.minted(#[trigger] ids@[i]) && minter.minted(
                ids@[i],
            ) by {
                assert(mid.contains(ids@[i]));
                let u = choose|u: int| 0 <= u < mid.len() && mid[u] == ids@[i];
            }
        }
        ids
    }
}

impl<T: ImprovePartition, U: ImprovePartition> ImprovePartition for Composition<T, U> {
    open spec fn improve_pre(
        &self,
        points: Seq<Point2D>,
        weights: Seq<u64>,
        ids: Seq<Pid>,
    ) -> bool {
        &&& self.spec_first().improve_pre(points, weights, ids)
        &&& forall|mid: Seq<Pid>, r1: Result<(), crate::error::Error>|
            (#[trigger] self.spec_first().improve_post(points, weights, ids, mid, r1))
                && mid.len() == ids.len() ==> self.spec_second().improve_pre(
                points,
                weights,
                mid,
            )
    }

    /// Law: a composed improvement is the second improver applied to the
    /// first improver's output; the first stage's soft error takes
    /// precedence in the reported outcome.
    open spec fn improve_post(
        &self,
        points: Seq<Point2D>,
        weights: Seq<u64>,
        old_ids: Seq<Pid>,
        new_ids: Seq<Pid>,
        outcome: Result<(), crate::error::Error>,
    ) -> bool {
        exists|mid: Seq<Pid>, r1: Result<(), crate::error::Error>, r2: Result<
            (),
            crate::error::Error,
        >|
            #![trigger self.spec_first().improve_post(points, weights, old_ids, mid, r1), self.spec_second().improve_post(points, weights, mid, new_ids, r2)]
            {
                &&& self.spec_first().improve_post(points, weights, old_ids, mid, r1)
                &&& self.spec_second().improve_post(points, weights, mid, new_ids, r2)
                &&& forall|i: int| 0 <= i < new_ids.len() ==> mid.contains(#[trigger] new_ids[i])
                &&& forall|i: int| 0 <= i < mid.len() ==> old_ids.contains(#[trigger] mid[i])
                &&& outcome == (if r1 is Err {
                    r1
                } else {
                    r2
                })
            }
    }

    fn improve_partition(
        &self,
        points: &Vec<Point2D>,
        weights: &Vec<u64>,
        partition: &mut Vec<Pid>,
    ) -> (outcome: Result<(), crate::error::Error>) {
        let ghost start = partition@;
        let r1 = self.first.improve_partition(points, weights, partition);
        let ghost mid = partition@;
        let r2 = self.second.improve_partition(points, weights, partition);
        proof {
            assert forall|i: int|
                0 <= i < partition@.len() implies start.contains(
                #[trigger] partition@[i],
            ) by {
                assert(mid.contains(partition@[i]));
                let u = choose|u: int| 0 <= u < mid.len() && mid[u] == partition@[i];
            }
        }
        if r1.is_err() {
            r1
        } else {
            r2
        }
    }
}

/// Fuse this algorithm with a following stage.
pub trait Compose<T>: Sized {
    /// Build the fused algorithm, this stage first.
    fn compose(self, other: T) -> (r: Composition<Self, T>)
        ensures
            r.spec_first() == &self,
            r.spec_second() == &other,
    ;
}

impl<T, U> Compose<T> for U {
    fn compose(self, other: T) -> (r: Composition<U, T>) {
        Composition { first: self, second: other }
    }
}


/// Check that a point set, its weights and a requested part count are
/// inputs the partitioners accept: matching lengths, grid-range
/// coordinates and weights, not too many points, at least one part.
/// Rejected inputs get [`Error::InvalidInput`], and nothing else is ever
/// rejected.
pub fn validate_inputs(
    points: &Vec<Point2D>,
    weights: &Vec<u64>,
    num_partitions: usize,
) -> (r: Result<(), crate::error::Error>)
    ensures
        r is Ok <==> {
            &&& points@.len() == weights@.len()
            &&& points@.len() <= MAX_POINTS
            &&& points_in_range(points@)
            &&& weights_in_range(weights@)
            &&& num_partitions >= 1
        },
        r is Err ==> r == Result::<(), crate::error::Error>::Err(crate::error::Error::InvalidInput),
{
    if points.len() != weights.len() || points.len() > MAX_POINTS || num_partitions < 1 {
        return Err(crate::error::Error::InvalidInput);
    }
    let n = points.len();
    let mut i: usize = 0;
    while i < n
        invariant
            0 <= i <= n,
            n == points@.len(),
            n == weights@.len(),
            forall|t: int| 0 <= t < i ==> (#[trigger] points@[t]).in_range(),
            forall|t: int| 0 <= t < i ==> #[trigger] weights@[t] <= crate::split::WEIGHT_LIMIT,
        decreases n - i,
    {
        let p = points[i];
        if p.x < -crate::geometry::COORD_LIMIT || p.x > crate::geometry::COORD_LIMIT || p.y
            < -crate::geometry::COORD_LIMIT || p.y > crate::geometry::COORD_LIMIT {
            proof {
                assert(!points@[i as int].in_range());
            }
            return Err(crate::error::Error::InvalidInput);
        }
        if weights[i] > crate::split::WEIGHT_LIMIT {
            return Err(crate::error::Error::InvalidInput);
        }
        i = i + 1;
    }
    Ok(())
}

} // verus!
