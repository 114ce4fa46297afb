//! Fixed-point plane geometry: points, axis-aligned bounding boxes,
//! quadrants and squared distances.
//!
//! Coordinates are integers in `[-COORD_LIMIT, COORD_LIMIT]`; callers that
//! start from floating-point data quantize it onto this grid first.  The
//! bound keeps every squared distance inside `u64` and every sum of
//! coordinates inside `i64`.

use vstd::prelude::*;

verus! {

/// Largest coordinate magnitude the library accepts.
pub const COORD_LIMIT: i64 = 0x4000_0000;

/// A point of the plane with fixed-point integer coordinates.
#[derive(Clone, Copy, PartialEq, Eq, Structural, Debug)]
pub struct Point2D {
    pub x: i64,
    pub y: i64,
}

/// One of the four quadrants of a bounding box.
#[derive(Clone, Copy, PartialEq, Eq, Structural, Debug)]
pub enum Quadrant {
    BottomLeft,
    BottomRight,
    TopLeft,
    TopRight,
}

/// The child index of a quadrant in a Z-order descent.
pub open spec fn quadrant_index(q: Quadrant) -> int {
    match q {
        Quadrant::BottomLeft => 0,
        Quadrant::BottomRight => 1,
        Quadrant::TopLeft => 2,
        Quadrant::TopRight => 3,
    }
}

/// The child index of a quadrant in a Z-order descent.
pub fn quadrant_code(q: Quadrant) -> (c: u64)
    ensures
        c == quadrant_index(q),
{
    match q {
        Quadrant::BottomLeft => 0,
        Quadrant::BottomRight => 1,
        Quadrant::TopLeft => 2,
        Quadrant::TopRight => 3,
    }
}

impl Point2D {
    /// Both coordinates lie on the accepted grid.
    pub open spec fn in_range(self) -> bool {
        -COORD_LIMIT <= self.x <= COORD_LIMIT && -COORD_LIMIT <= self.y <= COORD_LIMIT
    }

    pub fn new(x: i64, y: i64) -> (p: Point2D)
        ensures
            p.x == x,
            p.y == y,
    {
        Point2D { x, y }
    }
}

/// Every point of the sequence lies on the accepted grid.
pub open spec fn points_in_range(points: Seq<Point2D>) -> bool {
    forall|i: int| 0 <= i < points.len() ==> (#[trigger] points[i]).in_range()
}

/// The squared Euclidean distance between two points.
pub open spec fn spec_dist2(p: Point2D, q: Point2D) -> int {
    (p.x - q.x) * (p.x - q.x) + (p.y - q.y) * (p.y - q.y)
}

/// Squared Euclidean distance, exact in `u64` thanks to `COORD_LIMIT`.
pub fn dist2(p: Point2D, q: Point2D) -> (d: u64)
    requires
        p.in_range(),
        q.in_range(),
    ensures
        d == spec_dist2(p, q),
        d <= 0x8000_0000_0000_0000,
{
    let dx: i64 = p.x - q.x;
    let dy: i64 = p.y - q.y;
    proof {
        assert(0 <= dx * dx <= 0x4000_0000_0000_0000) by (nonlinear_arith)
            requires -0x8000_0000 <= dx <= 0x8000_0000;
        assert(0 <= dy * dy <= 0x4000_0000_0000_0000) by (nonlinear_arith)
            requires -0x8000_0000 <= dy <= 0x8000_0000;
    }
    let sx: u64 = (dx as i128 * dx as i128) as u64;
    let sy: u64 = (dy as i128 * dy as i128) as u64;
    sx + sy
}

/// Floor of the midpoint of two coordinates (specification).
pub open spec fn spec_mid(a: int, b: int) -> int {
    (a + b) / 2
}

/// Floor of the midpoint of two coordinates.
fn mid_coord(a: i64, b: i64) -> (m: i64)
    requires
        -COORD_LIMIT <= a <= COORD_LIMIT,
        -COORD_LIMIT <= b <= COORD_LIMIT,
    ensures
        2 * m <= a + b < 2 * m + 2,
        a <= b ==> a <= m <= b,
        m == spec_mid(a as int, b as int),
{
    let ua: i64 = a + COORD_LIMIT;
    let ub: i64 = b + COORD_LIMIT;
    let m: i64 = (ua + ub) / 2 - COORD_LIMIT;
    proof {
        vstd::arithmetic::div_mod::lemma_fundamental_div_mod(a + b, 2);
    }
    m
}

/// An axis-aligned bounding box.
#[derive(Clone, Copy, PartialEq, Eq, Structural, Debug)]
pub struct Aabb2D {
    pub min: Point2D,
    pub max: Point2D,
}

impl Aabb2D {
    /// The corners lie on the grid and are ordered.
    pub open spec fn wf(self) -> bool {
        &&& self.min.in_range()
        &&& self.max.in_range()
        &&& self.min.x <= self.max.x
        &&& self.min.y <= self.max.y
    }

    /// The box contains the point.
    pub open spec fn contains(self, p: Point2D) -> bool {
        self.min.x <= p.x <= self.max.x && self.min.y <= p.y <= self.max.y
    }

    /// The quadrant of the box that `p` falls in.  Ties on the vertical
    /// middle line go right, ties on the horizontal one go up.
    pub open spec fn spec_quadrant(self, p: Point2D) -> Quadrant {
        if 2 * p.x < self.min.x + self.max.x {
            if 2 * p.y < self.min.y + self.max.y {
                Quadrant::BottomLeft
            } else {
                Quadrant::TopLeft
            }
        } else {
            if 2 * p.y < self.min.y + self.max.y {
                Quadrant::BottomRight
            } else {
                Quadrant::TopRight
            }
        }
    }

    /// Classify `p` against the middle lines of the box.
    pub fn quadrant(&self, p: &Point2D) -> (q: Quadrant)
        requires
            self.wf(),
            p.in_range(),
        ensures
            q == self.spec_quadrant(*p),
    {
        let right: bool = 2 * p.x >= self.min.x + self.max.x;
        let top: bool = 2 * p.y >= self.min.y + self.max.y;
        if right {
            if top {
                Quadrant::TopRight
            } else {
                Quadrant::BottomRight
            }
        } else {
            if top {
                Quadrant::TopLeft
            } else {
                Quadrant::BottomLeft
            }
        }
    }

    /// The sub-box bounding the chosen quadrant (specification).
    pub open spec fn spec_sub_aabb(self, q: Quadrant) -> Aabb2D {
        let mx = spec_mid(self.min.x as int, self.max.x as int) as i64;
        let my = spec_mid(self.min.y as int, self.max.y as int) as i64;
        match q {
            Quadrant::BottomLeft => Aabb2D { min: self.min, max: Point2D { x: mx, y: my } },
            Quadrant::BottomRight => Aabb2D {
                min: Point2D { x: mx, y: self.min.y },
                max: Point2D { x: self.max.x, y: my },
            },
            Quadrant::TopLeft => Aabb2D {
                min: Point2D { x: self.min.x, y: my },
                max: Point2D { x: mx, y: self.max.y },
            },
            Quadrant::TopRight => Aabb2D { min: Point2D { x: mx, y: my }, max: self.max },
        }
    }

    /// The sub-box bounding the chosen quadrant.  A point classified into a
    /// quadrant by [`Aabb2D::quadrant`] is contained in that sub-box.
    pub fn sub_aabb(&self, q: Quadrant) -> (r: Aabb2D)
        requires
            self.wf(),
        ensures
            r.wf(),
            r == self.spec_sub_aabb(q),
            forall|p: Point2D|
                self.contains(p) && self.spec_quadrant(p) == q ==> #[trigger] r.contains(p),
    {
        let mx: i64 = mid_coord(self.min.x, self.max.x);
        let my: i64 = mid_coord(self.min.y, self.max.y);
        match q {
            Quadrant::BottomLeft => Aabb2D {
                min: self.min,
                max: Point2D { x: mx, y: my },
            },
            Quadrant::BottomRight => Aabb2D {
                min: Point2D { x: mx, y: self.min.y },
                max: Point2D { x: self.max.x, y: my },
            },
            Quadrant::TopLeft => Aabb2D {
                min: Point2D { x: self.min.x, y: my },
                max: Point2D { x: mx, y: self.max.y },
            },
            Quadrant::TopRight => Aabb2D {
                min: Point2D { x: mx, y: my },
                max: self.max,
            },
        }
    }

    /// The bounding box of a non-empty point set (specification).
    pub open spec fn spec_from_points(points: Seq<Point2D>) -> Aabb2D
        decreases points.len(),
    {
        if points.len() <= 1 {
            Aabb2D { min: points[0], max: points[0] }
        } else {
            let b = Self::spec_from_points(points.drop_last());
            let p = points.last();
            Aabb2D {
                min: Point2D {
                    x: if p.x < b.min.x { p.x } else { b.min.x },
                    y: if p.y < b.min.y { p.y } else { b.min.y },
                },
                max: Point2D {
                    x: if p.x > b.max.x { p.x } else { b.max.x },
                    y: if p.y > b.max.y { p.y } else { b.max.y },
                },
            }
        }
    }

    /// The bounding box of a non-empty point set.
    pub fn from_points(points: &Vec<Point2D>) -> (r: Aabb2D)
        requires
            points.len() > 0,
            points_in_range(points@),
        ensures
            r.wf(),
            r == Self::spec_from_points(points@),
            forall|i: int| 0 <= i < points@.len() ==> r.contains(#[trigger] points@[i]),
    {
        let mut min_x: i64 = points[0].x;
        let mut max_x: i64 = points[0].x;
        let mut min_y: i64 = points[0].y;
        let mut max_y: i64 = points[0].y;
        let mut i: usize = 1;
        while i < points.len()
            invariant
                1 <= i <= points@.len(),
                points_in_range(points@),
                -COORD_LIMIT <= min_x <= COORD_LIMIT,
                -COORD_LIMIT <= max_x <= COORD_LIMIT,
                -COORD_LIMIT <= min_y <= COORD_LIMIT,
                -COORD_LIMIT <= max_y <= COORD_LIMIT,
                min_x <= max_x,
                min_y <= max_y,
                forall|j: int|
                    0 <= j < i ==> {
                        let p = #[trigger] points@[j];
                        min_x <= p.x <= max_x && min_y <= p.y <= max_y
                    },
                (Aabb2D {
                    min: Point2D { x: min_x, y: min_y },
                    max: Point2D { x: max_x, y: max_y },
                }) == Self::spec_from_points(points@.subrange(0, i as int)),
            decreases points@.len() - i,
        {
            proof {
                assert(points@.subrange(0, i + 1).drop_last() =~= points@.subrange(0, i as int));
                assert(points@.subrange(0, i + 1).last() == points@[i as int]);
            }
            let p = points[i];
            if p.x < min_x {
                min_x = p.x;
            }
            if p.x > max_x {
                max_x = p.x;
            }
            if p.y < min_y {
                min_y = p.y;
            }
            if p.y > max_y {
                max_y = p.y;
            }
            i = i + 1;
        }
        proof {
            assert(points@.subrange(0, points@.len() as int) =~= points@);
        }
        Aabb2D {
            min: Point2D { x: min_x, y: min_y },
            max: Point2D { x: max_x, y: max_y },
        }
    }

    /// The extent of the box along each axis.
    pub fn extents(&self) -> (e: (u64, u64))
        requires
            self.wf(),
        ensures
            e.0 == self.max.x - self.min.x,
            e.1 == self.max.y - self.min.y,
    {
        ((self.max.x - self.min.x) as u64, (self.max.y - self.min.y) as u64)
    }
}

/// The floor of the square root: `r * r <= n < (r + 1) * (r + 1)`.
pub fn isqrt(n: u64) -> (r: u64)
    ensures
        r * r <= n,
        n < (r + 1) * (r + 1),
{
    if n == 0 {
        return 0;
    }
    let mut lo: u64 = 0;
    let mut hi: u64 = 0x1_0000_0000;
    // Invariant: lo * lo <= n < hi * hi.
    proof {
        assert((0x1_0000_0000u64 as int) * (0x1_0000_0000u64 as int) == 0x1_0000_0000_0000_0000)
            by (nonlinear_arith);
    }
    while lo + 1 < hi
        invariant
            lo < hi <= 0x1_0000_0000,
            lo * lo <= n,
            n < hi * hi,
        decreases hi - lo,
    {
        let m: u64 = lo + (hi - lo) / 2;
        proof {
            assert(0 <= (m as int) * (m as int) <= 0x1_0000_0000_0000_0000) by (nonlinear_arith)
                requires 0 <= m <= 0x1_0000_0000;
        }
        if (m as u128) * (m as u128) <= n as u128 {
            lo = m;
        } else {
            hi = m;
        }
    }
    lo
}


/// The bounding box of an axiswise positive affine image of a point set
/// is the image of its bounding box.
pub proof fn lemma_from_points_affine(
    ps: Seq<Point2D>,
    qs: Seq<Point2D>,
    ax: int,
    bx: int,
    ay: int,
    cy: int,
)
    requires
        ps.len() == qs.len(),
        ps.len() >= 1,
        ax >= 1,
        ay >= 1,
        forall|i: int|
            0 <= i < ps.len() ==> (#[trigger] qs[i]).x as int == ax * (ps[i].x as int) + bx
                && qs[i].y as int == ay * (ps[i].y as int) + cy,
    ensures
        Aabb2D::spec_from_points(qs).min.x as int == ax * (Aabb2D::spec_from_points(
            ps,
        ).min.x as int) + bx,
        Aabb2D::spec_from_points(qs).max.x as int == ax * (Aabb2D::spec_from_points(
            ps,
        ).max.x as int) + bx,
        Aabb2D::spec_from_points(qs).min.y as int == ay * (Aabb2D::spec_from_points(
            ps,
        ).min.y as int) + cy,
        Aabb2D::spec_from_points(qs).max.y as int == ay * (Aabb2D::spec_from_points(
            ps,
        ).max.y as int) + cy,
    decreases ps.len(),
{
    if ps.len() <= 1 {
        assert(qs[0].x as int == ax * (ps[0].x as int) + bx);
    } else {
        let pd = ps.drop_last();
        let qd = qs.drop_last();
        assert forall|i: int|
            0 <= i < pd.len() implies (#[trigger] qd[i]).x as int == ax * (pd[i].x as int) + bx
            && qd[i].y as int == ay * (pd[i].y as int) + cy by {
            assert(qd[i] == qs[i]);
            assert(pd[i] == ps[i]);
        }
        lemma_from_points_affine(pd, qd, ax, bx, ay, cy);
        let bp = Aabb2D::spec_from_points(pd);
        let lp = ps.last();
        let lq = qs.last();
        assert(lq.x as int == ax * (lp.x as int) + bx);
        assert(lq.y as int == ay * (lp.y as int) + cy);
        // A positive per-axis scaling preserves every comparison.
        assert((lp.x < bp.min.x <==> ax * (lp.x as int) + bx < ax * (bp.min.x as int) + bx) && (
        lp.x > bp.max.x <==> ax * (lp.x as int) + bx > ax * (bp.max.x as int) + bx) && (lp.y
            < bp.min.y <==> ay * (lp.y as int) + cy < ay * (bp.min.y as int) + cy) && (lp.y
            > bp.max.y <==> ay * (lp.y as int) + cy > ay * (bp.max.y as int) + cy))
            by (nonlinear_arith)
            requires ax >= 1, ay >= 1;
    }
}

} // verus!
