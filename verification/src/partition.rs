//! The partition container: a point slice, its weights, and one part
//! identifier per point.

use vstd::prelude::*;
use crate::geometry::Point2D;
use crate::geometry::points_in_range;
use crate::pid::Pid;
use crate::split::MAX_POINTS;
use crate::split::weights_in_range;

verus! {

/// A partition of a weighted point set: one identifier per point.  The
/// number of distinct identifiers is the effective part count; it may be
/// smaller than the part count that was requested.
pub struct Partition {
    points: Vec<Point2D>,
    weights: Vec<u64>,
    ids: Vec<Pid>,
}

impl Partition {
    /// The points.
    pub closed spec fn spec_points(&self) -> Seq<Point2D> {
        self.points@
    }

    /// The weights.
    pub closed spec fn spec_weights(&self) -> Seq<u64> {
        self.weights@
    }

    /// The per-point identifiers.
    pub closed spec fn spec_ids(&self) -> Seq<Pid> {
        self.ids@
    }

    /// One weight and one identifier per point, everything on the grid.
    pub open spec fn wf(&self) -> bool {
        &&& self.spec_points().len() == self.spec_weights().len()
        &&& self.spec_points().len() == self.spec_ids().len()
        &&& self.spec_points().len() <= MAX_POINTS
        &&& points_in_range(self.spec_points())
        &&& weights_in_range(self.spec_weights())
    }

    /// The effective part count: how many distinct identifiers appear.
    pub open spec fn spec_part_count(&self) -> nat {
        self.spec_ids().to_set().len()
    }

    /// Bundle a labelled point set.
    pub fn new(points: Vec<Point2D>, weights: Vec<u64>, ids: Vec<Pid>) -> (r: Partition)
        requires
            points@.len() == weights@.len(),
            points@.len() == ids@.len(),
            points@.len() <= MAX_POINTS,
            points_in_range(points@),
            weights_in_range(weights@),
        ensures
            r.wf(),
            r.spec_points() == points@,
            r.spec_weights() == weights@,
            r.spec_ids() == ids@,
    {
        Partition { points, weights, ids }
    }

    /// The points.
    pub fn points(&self) -> (r: &Vec<Point2D>)
        ensures
            r@ == self.spec_points(),
    {
        &self.points
    }

    /// The weights.
    pub fn weights(&self) -> (r: &Vec<u64>)
        ensures
            r@ == self.spec_weights(),
    {
        &self.weights
    }

    /// The per-point identifiers.
    pub fn ids(&self) -> (r: &Vec<Pid>)
        ensures
            r@ == self.spec_ids(),
    {
        &self.ids
    }

    /// Relabel the points, one identifier per point.
    pub fn set_ids(&mut self, ids: Vec<Pid>)
        requires
            ids@.len() == old(self).spec_points().len(),
        ensures
            final(self).spec_points() == old(self).spec_points(),
            final(self).spec_weights() == old(self).spec_weights(),
            final(self).spec_ids() == ids@,
            old(self).wf() ==> final(self).wf(),
    {
        self.ids = ids;
    }
}

} // verus!
