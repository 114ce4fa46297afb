//! The Hilbert space-filling curve, encoded as described by Liu and
//! Schrack: the index interleaves the bit streams `h_even = x ^ y` and
//! `h_odd`, the latter obtained from an iterated bitwise recurrence over
//! `order - 1` rounds.
//!
//! Each axis of the axis-aligned bounding box is mapped linearly onto the
//! integer grid `[0, 2^order)`; a point's index is the Hilbert encoding of
//! its grid cell.  Sorting by index, ties broken by input index, yields
//! the Hilbert ordering.  The grid map is invariant under positive affine
//! rescaling of an axis, so rescaled point sets keep their ordering.  A
//! caller who wants the curve aligned with the cloud's principal axes
//! rotates the points before quantizing them: the rotation is
//! floating-point work and stays outside the library.

use vstd::prelude::*;
use crate::geometry::Aabb2D;
use crate::geometry::Point2D;
use crate::geometry::points_in_range;
use crate::pid::Pid;
use crate::pid::PidMinter;
use crate::sort::is_permutation;
use crate::sort::sort_indices_by_key;
use crate::split::MAX_POINTS;
use crate::split::lemma_total_bounded;
use crate::split::split_positions;
use crate::split::weights_in_range;

verus! {

/// The deepest supported curve order: indices fit in 62 bits.
pub const MAX_HILBERT_ORDER: u32 = 31;

/// Bit interleaving: bit `i` of `even` lands at position `2 i`, bit `i`
/// of `odd` at position `2 i + 1`.
pub open spec fn spec_interleave(odd: u64, even: u64) -> int
    decreases odd + even,
{
    if odd == 0 && even == 0 {
        0
    } else {
        (even % 2) + 2 * (odd % 2) + 4 * spec_interleave(odd / 2, even / 2)
    }
}

proof fn lemma_interleave_nonneg(odd: u64, even: u64)
    ensures
        spec_interleave(odd, even) >= 0,
        odd > 0 || even > 0 ==> spec_interleave(odd, even) >= 1,
    decreases odd + even,
{
    if !(odd == 0 && even == 0) {
        lemma_interleave_nonneg(odd / 2, even / 2);
    }
}

/// Interleaving two `m`-bit streams stays below `2^(2 m)`.
proof fn lemma_interleave_bound(odd: u64, even: u64, m: u64)
    requires
        odd < (1u64 << m),
        even < (1u64 << m),
        m <= 31,
    ensures
        spec_interleave(odd, even) < (1u64 << (2 * m)),
    decreases m,
{
    if m == 0 {
        assert((1u64 << 0u64) == 1 && (1u64 << (2 * 0u64)) == 1) by (bit_vector);
        assert(spec_interleave(0, 0) == 0);
    } else {
        assert((odd / 2 < (1u64 << ((m - 1) as u64))) && (even / 2 < (1u64 << ((m - 1) as u64)))
            && (1u64 << (2 * m)) == 4 * (1u64 << (2 * ((m - 1) as u64))) && (1u64 << (2 * ((m
            - 1) as u64))) >= 1) by (bit_vector)
            requires 1 <= m && m <= 31 && odd < (1u64 << m) && even < (1u64 << m);
        lemma_interleave_bound(odd / 2, even / 2, (m - 1) as u64);
        assert(spec_interleave(odd, even) <= 3 + 4 * spec_interleave(odd / 2, even / 2));
    }
}

/// Interleave the bits of `odd` and `even`: `even` supplies the bits at
/// even positions, `odd` those at odd positions.
pub fn interleave_bits(odd: u64, even: u64) -> (val: u64)
    requires
        odd < 0x8000_0000,
        even < 0x8000_0000,
    ensures
        val as int == spec_interleave(odd, even),
{
    proof {
        assert((1u64 << 31u64) == 0x8000_0000 && (1u64 << (2 * 31u64)) == 0x4000_0000_0000_0000)
            by (bit_vector);
        lemma_interleave_bound(odd, even, 31u64);
        lemma_interleave_nonneg(odd, even);
    }
    let ghost total = spec_interleave(odd, even);
    let mut o = odd;
    let mut e = even;
    let mut val: u64 = 0;
    let mut mul: u64 = 1;
    while o > 0 || e > 0
        invariant
            val as int + (mul as int) * spec_interleave(o, e) == total,
            0 <= total < 0x4000_0000_0000_0000,
            mul >= 1,
        decreases o + e,
    {
        let ghost go = o;
        let ghost ge = e;
        let ghost gmul = mul as int;
        let ghost gval = val as int;
        let bits: u64 = (e % 2) + 2 * (o % 2);
        proof {
            lemma_interleave_nonneg(o / 2, e / 2);
            lemma_interleave_nonneg(o, e);
            assert(spec_interleave(o, e) == bits + 4 * spec_interleave(o / 2, e / 2));
            assert(gmul * spec_interleave(go, ge) >= gmul * (bits as int) && gmul
                * spec_interleave(go, ge) >= 0 && gmul * (bits as int) >= 0 && gmul
                * spec_interleave(go, ge) == gmul * (bits as int) + (4 * gmul)
                * spec_interleave(go / 2, ge / 2)) by (nonlinear_arith)
                requires
                    gmul >= 1,
                    spec_interleave(go, ge) >= bits,
                    bits >= 0,
                    spec_interleave(go, ge) >= 0,
                    spec_interleave(go / 2, ge / 2) >= 0,
                    spec_interleave(go, ge) == bits + 4 * spec_interleave(go / 2, ge / 2);
        }
        val = val + mul * bits;
        o = o / 2;
        e = e / 2;
        if o > 0 || e > 0 {
            proof {
                lemma_interleave_nonneg(o, e);
                assert((4 * gmul) <= (4 * gmul) * spec_interleave(go / 2, ge / 2))
                    by (nonlinear_arith)
                    requires gmul >= 1 && spec_interleave(go / 2, ge / 2) >= 1;
            }
            mul = mul * 4;
            proof {
                assert(val as int + (mul as int) * spec_interleave(o, e) == total);
            }
        } else {
            proof {
                assert(spec_interleave(o, e) == 0);
                assert((mul as int) * 0 == 0) by (nonlinear_arith);
                assert(gmul * (bits as int) + (4 * gmul) * 0 == gmul * (bits as int))
                    by (nonlinear_arith);
                assert(val as int + (mul as int) * spec_interleave(o, e) == total);
            }
        }
    }
    proof {
        assert((mul as int) * 0 == 0) by (nonlinear_arith);
    }
    val
}

/// The Liu–Schrack recurrence state `(v0, v1)` after `i` rounds.
pub open spec fn spec_hilbert_state(x: u64, y: u64, mask: u64, i: nat) -> (u64, u64)
    decreases i,
{
    if i == 0 {
        (0u64, 0u64)
    } else {
        let prev = spec_hilbert_state(x, y, mask, (i - 1) as nat);
        let h_even = x ^ y;
        let not_x = !x & mask;
        let not_y = !y & mask;
        let temp = not_x ^ y;
        let v1 = ((prev.1 & h_even) | ((prev.0 ^ not_y) & temp)) >> 1u64;
        let v0 = ((prev.0 & (v1 ^ not_x)) | ((!prev.0) & (v1 ^ not_y))) >> 1u64;
        (v0, v1)
    }
}

/// The Hilbert index of the grid cell `(x, y)` for a curve of the given
/// order: the interleaving of `h_odd` and `h_even = x ^ y`, with `h_odd`
/// read off the recurrence state after `order - 1` rounds.
pub open spec fn spec_hilbert_encode(x: u64, y: u64, order: nat) -> int {
    let mask = (((1u64 << (order as u64)) - 1) as u64);
    let s = spec_hilbert_state(x, y, mask, (order - 1) as nat);
    let h_even = x ^ y;
    let not_y = !y & mask;
    let h_odd = ((!s.0) & (s.1 ^ x)) | (s.0 & (s.1 ^ not_y));
    spec_interleave(h_odd, h_even)
}

/// Encode one grid cell of a Hilbert curve of the given order.
pub fn encode(x: u64, y: u64, order: u32) -> (h: u64)
    requires
        1 <= order <= MAX_HILBERT_ORDER,
        x < (1u64 << (order as u64)),
        y < (1u64 << (order as u64)),
    ensures
        h as int == spec_hilbert_encode(x, y, order as nat),
{
    proof {
        assert((1u64 << (order as u64)) >= 1 && (((1u64 << (order as u64)) - 1) as u64)
            < 0x8000_0000 && (x < (1u64 << (order as u64)) ==> x < 0x8000_0000) && (y < (1u64
            << (order as u64)) ==> y < 0x8000_0000)) by (bit_vector)
            requires 1 <= order && order <= 31;
    }
    let mask: u64 = (1u64 << order) - 1;
    let h_even: u64 = x ^ y;
    let not_x: u64 = !x & mask;
    let not_y: u64 = !y & mask;
    let temp: u64 = not_x ^ y;
    proof {
        assert((x ^ y) < 0x8000_0000 && (!x & mask) <= mask && (!y & mask) <= mask && (((!x
            & mask) ^ y) < 0x8000_0000)) by (bit_vector)
            requires x < 0x8000_0000 && y < 0x8000_0000 && mask < 0x8000_0000;
    }
    let mut v0: u64 = 0;
    let mut v1: u64 = 0;
    let mut i: u32 = 1;
    while i < order
        invariant
            1 <= i <= order,
            mask as int == (1u64 << (order as u64)) - 1,
            h_even == x ^ y,
            not_x == !x & mask,
            not_y == !y & mask,
            temp == not_x ^ y,
            (v0, v1) == spec_hilbert_state(x, y, mask, (i - 1) as nat),
            x < 0x8000_0000,
            y < 0x8000_0000,
            mask < 0x8000_0000,
            h_even < 0x8000_0000,
            not_x < 0x8000_0000,
            not_y < 0x8000_0000,
            temp < 0x8000_0000,
            v0 < 0x8000_0000,
            v1 < 0x8000_0000,
        decreases order - i,
    {
        let a1: u64 = (v1 & h_even) | ((v0 ^ not_y) & temp);
        let nv1: u64 = a1 >> 1u64;
        proof {
            assert(((v1 & h_even) | ((v0 ^ not_y) & temp)) >> 1u64 < 0x8000_0000)
                by (bit_vector)
                requires h_even < 0x8000_0000 && temp < 0x8000_0000;
        }
        let a0: u64 = (v0 & (nv1 ^ not_x)) | ((!v0) & (nv1 ^ not_y));
        let nv0: u64 = a0 >> 1u64;
        proof {
            assert(((v0 & (nv1 ^ not_x)) | ((!v0) & (nv1 ^ not_y))) >> 1u64 < 0x8000_0000)
                by (bit_vector)
                requires nv1 < 0x8000_0000 && not_x < 0x8000_0000 && not_y < 0x8000_0000;
        }
        v1 = nv1;
        v0 = nv0;
        i = i + 1;
    }
    let h_odd: u64 = ((!v0) & (v1 ^ x)) | (v0 & (v1 ^ not_y));
    proof {
        assert((((!v0) & (v1 ^ x)) | (v0 & (v1 ^ not_y))) < 0x8000_0000) by (bit_vector)
            requires x < 0x8000_0000 && v1 < 0x8000_0000 && not_y < 0x8000_0000;
    }
    interleave_bits(h_odd, h_even)
}


/// The linear map of a coordinate in `[lo, hi]` onto the integer grid
/// `[0, 2^order)`.
pub open spec fn spec_axis_map(x: int, lo: int, hi: int, order: nat) -> int {
    if hi <= lo {
        0
    } else {
        ((x - lo) * ((1u64 << (order as u64)) - 1)) / (hi - lo)
    }
}

/// Map a coordinate onto the curve's grid.
pub fn axis_map(x: i64, lo: i64, hi: i64, order: u32) -> (r: u64)
    requires
        lo <= x <= hi,
        -0x4000_0000 <= lo,
        hi <= 0x4000_0000,
        1 <= order <= MAX_HILBERT_ORDER,
    ensures
        r as int == spec_axis_map(x as int, lo as int, hi as int, order as nat),
        r < (1u64 << (order as u64)),
{
    proof {
        assert(1u64 << (order as u64) >= 1 && (((1u64 << (order as u64)) - 1) as u64)
            <= 0x8000_0000 && ((1i128 << (order as i128)) - 1) == ((1u64 << (order as u64)) - 1))
            by (bit_vector)
            requires 1 <= order && order <= 31;
    }
    if hi <= lo {
        return 0;
    }
    let m: i128 = (1i128 << order) - 1;
    proof {
        assert(((x - lo) as int) * (m as int) <= 0x1_0000_0000 * 0x8000_0001
            && 0 <= ((x - lo) as int) * (m as int)) by (nonlinear_arith)
            requires 0 <= (x - lo) as int <= 0x1_0000_0000 && 0 <= m as int <= 0x8000_0001;
    }
    let num: i128 = ((x - lo) as i128) * m;
    let den: i128 = (hi - lo) as i128;
    let q: i128 = num / den;
    proof {
        vstd::arithmetic::div_mod::lemma_fundamental_div_mod(num as int, den as int);
        assert(0 <= (num as int) / (den as int) <= m) by (nonlinear_arith)
            requires
                num as int == ((x - lo) as int) * (m as int),
                num as int == (den as int) * ((num as int) / (den as int)) + (num as int) % (
                den as int),
                0 <= (num as int) % (den as int) < den as int,
                0 <= ((x - lo) as int) <= den as int,
                0 < den as int,
                0 <= m as int;
    }
    q as u64
}

/// The Hilbert index of each point: both axes of the bounding box are
/// mapped onto the grid, and each grid cell is encoded on the curve.
pub open spec fn spec_hilbert_index(points: Seq<Point2D>, i: int, order: nat) -> int {
    let b = Aabb2D::spec_from_points(points);
    spec_hilbert_encode(
        spec_axis_map(points[i].x as int, b.min.x as int, b.max.x as int, order) as u64,
        spec_axis_map(points[i].y as int, b.min.y as int, b.max.y as int, order) as u64,
        order,
    )
}

/// The Hilbert index of every point of a non-empty set.
pub fn hilbert_indices(points: &Vec<Point2D>, order: u32) -> (idx: Vec<u64>)
    requires
        points@.len() >= 1,
        points_in_range(points@),
        1 <= order <= MAX_HILBERT_ORDER,
    ensures
        idx@.len() == points@.len(),
        forall|i: int|
            0 <= i < points@.len() ==> #[trigger] idx@[i] as int == spec_hilbert_index(
                points@,
                i,
                order as nat,
            ),
{
    let n = points.len();
    let b = Aabb2D::from_points(points);
    let mut idx: Vec<u64> = Vec::new();
    let mut i: usize = 0;
    while i < n
        invariant
            0 <= i <= n,
            n == points@.len(),
            points_in_range(points@),
            1 <= order <= MAX_HILBERT_ORDER,
            b.wf(),
            b == Aabb2D::spec_from_points(points@),
            forall|j: int| 0 <= j < n ==> b.contains(#[trigger] points@[j]),
            idx@.len() == i,
            forall|j: int|
                0 <= j < i ==> #[trigger] idx@[j] as int == spec_hilbert_index(
                    points@,
                    j,
                    order as nat,
                ),
        decreases n - i,
    {
        let p = points[i];
        let gx = axis_map(p.x, b.min.x, b.max.x, order);
        let gy = axis_map(p.y, b.min.y, b.max.y, order);
        let h = encode(gx, gy, order);
        idx.push(h);
        i = i + 1;
    }
    idx
}

/// `perm` lists the point indices in Hilbert order: ascending index on
/// the curve, ties broken by the original position.
pub open spec fn hilbert_sorted(perm: Seq<usize>, points: Seq<Point2D>, order: nat) -> bool {
    &&& is_permutation(perm, points.len())
    &&& forall|a: int, b: int|
        0 <= a < b < perm.len() ==> {
            let ha = spec_hilbert_index(points, (#[trigger] perm[a]) as int, order);
            let hb = spec_hilbert_index(points, (#[trigger] perm[b]) as int, order);
            ha < hb || (ha == hb && perm[a] < perm[b])
        }
}

/// Reorder the points (with their weights) along the Hilbert curve of
/// the given order: the result lists the same points, sorted by their
/// index on the curve, ties broken by input position.
pub fn hilbert_curve_reorder(
    points: Vec<Point2D>,
    weights: Vec<u64>,
    order: u32,
) -> (r: (Vec<Point2D>, Vec<u64>))
    requires
        points@.len() == weights@.len(),
        points@.len() >= 1,
        points_in_range(points@),
        1 <= order <= MAX_HILBERT_ORDER,
    ensures
        r.0@.len() == points@.len(),
        r.1@.len() == points@.len(),
        exists|perm: Seq<usize>|
            {
                &&& #[trigger] hilbert_sorted(perm, points@, order as nat)
                &&& forall|j: int|
                    0 <= j < perm.len() ==> r.0@[j] == points@[(#[trigger] perm[j]) as int]
                        && r.1@[j] == weights@[perm[j] as int]
            },
{
    let n = points.len();
    let idx = hilbert_indices(&points, order);
    let perm = sort_indices_by_key(&idx);
    let mut out_points: Vec<Point2D> = Vec::new();
    let mut out_weights: Vec<u64> = Vec::new();
    let mut j: usize = 0;
    while j < n
        invariant
            0 <= j <= n,
            n == points@.len(),
            n == weights@.len(),
            perm@.len() == n,
            forall|t: int| 0 <= t < n ==> (#[trigger] perm@[t]) < n,
            out_points@.len() == j,
            out_weights@.len() == j,
            forall|t: int|
                0 <= t < j ==> out_points@[t] == points@[(#[trigger] perm@[t]) as int]
                    && out_weights@[t] == weights@[perm@[t] as int],
        decreases n - j,
    {
        out_points.push(points[perm[j]]);
        out_weights.push(weights[perm[j]]);
        j = j + 1;
    }
    proof {
        assert(hilbert_sorted(perm@, points@, order as nat)) by {
            assert forall|x: int, y: int| 0 <= x < y < perm@.len() implies {
                let ha = spec_hilbert_index(points@, (#[trigger] perm@[x]) as int, order as nat);
                let hb = spec_hilbert_index(points@, (#[trigger] perm@[y]) as int, order as nat);
                ha < hb || (ha == hb && perm@[x] < perm@[y])
            } by {
                assert(crate::sort::pair_le(
                    (idx@[perm@[x] as int], perm@[x]),
                    (idx@[perm@[y] as int], perm@[y]),
                ));
                assert(perm@[x] != perm@[y]);
            }
        }
    }
    (out_points, out_weights)
}

/// Partition the points into `num_partitions` runs of the Hilbert
/// ordering with approximately equal total weight.  Exactly
/// `num_partitions` identifiers are minted, all by this call, and every
/// point is labelled with one of them, so at most `num_partitions`
/// distinct parts come out.
#[verifier::rlimit(100)]
#[verifier::spinoff_prover]
pub fn hilbert_curve_partition(
    points: &Vec<Point2D>,
    weights: &Vec<u64>,
    num_partitions: usize,
    order: u32,
    minter: &mut PidMinter,
) -> (ids: Vec<Pid>)
    requires
        points@.len() == weights@.len(),
        points@.len() <= MAX_POINTS,
        points_in_range(points@),
        weights_in_range(weights@),
        1 <= num_partitions,
        1 <= order <= MAX_HILBERT_ORDER,
        old(minter).spec_next() + num_partitions <= u64::MAX,
    ensures
        ids@.len() == points@.len(),
        forall|i: int|
            0 <= i < ids@.len() ==> !old(minter).minted(#[trigger] ids@[i])
                && final(minter).minted(ids@[i]),
        forall|i: int|
            0 <= i < ids@.len() ==> old(minter).spec_next() <= (#[trigger] ids@[i]).spec_id()
                < old(minter).spec_next() + num_partitions,
        final(minter).spec_next() == old(minter).spec_next() + num_partitions,
        points@.len() > 0 ==> exists|perm: Seq<usize>, pos: Seq<usize>, pids: Seq<Pid>|
            hilbert_sorted(perm, points@, order as nat)
                && #[trigger] crate::multi_jagged::run_assignment(
                weights@,
                ids@,
                num_partitions as int,
                perm,
                pos,
                pids,
            ),
{
    let ghost m0 = *minter;
    let n = points.len();
    let k = num_partitions;
    let mut pids: Vec<Pid> = Vec::new();
    let mut t: usize = 0;
    while t < k
        invariant
            0 <= t <= k,
            pids@.len() == t,
            m0.spec_next() + k <= u64::MAX,
            minter.spec_next() == m0.spec_next() + t,
            forall|u: int|
                0 <= u < t ==> !m0.minted(#[trigger] pids@[u]) && minter.minted(pids@[u])
                    && m0.spec_next() <= pids@[u].spec_id() < m0.spec_next() + k,
            forall|u: int| 0 <= u < t ==> (#[trigger] pids@[u]).spec_id() == m0.spec_next() + u,
        decreases k - t,
    {
        let ghost before = *minter;
        let p = minter.fresh();
        proof {
            crate::pid::lemma_unminted_monotone(m0, before, p);
            crate::pid::lemma_minted_window(before, *minter, p);
            assert forall|u: int| 0 <= u < t implies !m0.minted(#[trigger] pids@[u])
                && minter.minted(pids@[u]) && m0.spec_next() <= pids@[u].spec_id()
                < m0.spec_next() + k by {
                crate::pid::lemma_minted_monotone(before, *minter, pids@[u]);
            }
        }
        pids.push(p);
        t = t + 1;
    }
    if n == 0 {
        return Vec::new();
    }
    let idx = hilbert_indices(points, order);
    let perm = sort_indices_by_key(&idx);
    proof {
        // The permutation orders the points along the curve.
        assert(hilbert_sorted(perm@, points@, order as nat)) by {
            assert forall|x: int, y: int| 0 <= x < y < perm@.len() implies {
                let ha = spec_hilbert_index(points@, (#[trigger] perm@[x]) as int, order as nat);
                let hb = spec_hilbert_index(points@, (#[trigger] perm@[y]) as int, order as nat);
                ha < hb || (ha == hb && perm@[x] < perm@[y])
            } by {
                assert(crate::sort::pair_le(
                    (idx@[perm@[x] as int], perm@[x]),
                    (idx@[perm@[y] as int], perm@[y]),
                ));
                assert(perm@[x] != perm@[y]);
            }
        }
    }
    let mut pw: Vec<u64> = Vec::new();
    let mut j: usize = 0;
    while j < n
        invariant
            0 <= j <= n,
            n == points@.len(),
            n == weights@.len(),
            perm@.len() == n,
            forall|t: int| 0 <= t < n ==> (#[trigger] perm@[t]) < n,
            weights_in_range(weights@),
            pw@.len() == j,
            forall|t: int| 0 <= t < j ==> #[trigger] pw@[t] == weights@[perm@[t] as int],
            forall|t: int| 0 <= t < j ==> #[trigger] pw@[t] <= crate::split::WEIGHT_LIMIT,
        decreases n - j,
    {
        pw.push(weights[perm[j]]);
        j = j + 1;
    }
    proof {
        lemma_total_bounded(pw@);
        assert(pw@ =~= crate::split::permuted_weights(weights@, perm@));
    }
    let positions = split_positions(&pw, k);
    let mut ids: Vec<Pid> = Vec::new();
    let mut j: usize = 0;
    while j < n
        invariant
            0 <= j <= n,
            ids@.len() == j,
            pids@.len() == k,
            1 <= k,
            forall|t: int| 0 <= t < j ==> pids@.contains(#[trigger] ids@[t]),
        decreases n - j,
    {
        let p = pids[0];
        ids.push(p);
        proof {
            assert(pids@.contains(pids@[0]));
        }
        j = j + 1;
    }
    let mut r: usize = 0;
    let mut run: usize = 0;
    while r < n
        invariant
            0 <= r <= n,
            0 <= run <= k - 1,
            n == points@.len(),
            ids@.len() == n,
            pids@.len() == k,
            1 <= k,
            perm@.len() == n,
            perm@.no_duplicates(),
            positions@.len() == k - 1,
            forall|t: int| 0 <= t < n ==> (#[trigger] perm@[t]) < n,
            forall|t: int| 0 <= t < k - 1 ==> (#[trigger] positions@[t]) <= n,
            forall|t: int| 0 <= t < k - 2 ==> (#[trigger] positions@[t]) <= positions@[t + 1],
            forall|t: int| 0 <= t < n ==> pids@.contains(#[trigger] ids@[t]),
            forall|t: int| 0 <= t < run ==> (#[trigger] positions@[t]) <= r,
            run < k - 1 ==> r <= positions@[run as int],
            forall|q: int|
                0 <= q < r ==> exists|j: int|
                    0 <= j <= positions@.len() && crate::multi_jagged::cut_lo(positions@, j) <= q
                        < crate::multi_jagged::cut_hi(positions@, j, n as int) && ids@[(
                    #[trigger] perm@[q]) as int] == #[trigger] pids@[j],
        decreases n - r,
    {
        while run < k - 1 && positions[run] <= r
            invariant
                0 <= run <= k - 1,
                positions@.len() == k - 1,
                forall|t: int| 0 <= t < run ==> (#[trigger] positions@[t]) <= r,
            decreases k - 1 - run,
        {
            run = run + 1;
        }
        let ghost pre_ids = ids@;
        let p = pids[run];
        ids.set(perm[r], p);
        proof {
            assert(pids@.contains(pids@[run as int]));
            assert(crate::multi_jagged::cut_lo(positions@, run as int) <= r
                < crate::multi_jagged::cut_hi(positions@, run as int, n as int));
            assert forall|q: int|
                0 <= q < r + 1 implies exists|j: int|
                0 <= j <= positions@.len() && crate::multi_jagged::cut_lo(positions@, j) <= q
                    < crate::multi_jagged::cut_hi(positions@, j, n as int) && ids@[(
            #[trigger] perm@[q]) as int] == #[trigger] pids@[j] by {
                if q < r {
                    let j = choose|j: int|
                        0 <= j <= positions@.len() && crate::multi_jagged::cut_lo(positions@, j)
                            <= q < crate::multi_jagged::cut_hi(positions@, j, n as int)
                            && pre_ids[(#[trigger] perm@[q]) as int] == #[trigger] pids@[j];
                    assert(perm@[q] != perm@[r as int]);
                    assert(ids@[perm@[q] as int] == pre_ids[perm@[q] as int]);
                } else {
                    assert(ids@[perm@[q] as int] == pids@[run as int]);
                }
            }
        }
        r = r + 1;
    }
    proof {
        assert forall|i: int|
            0 <= i < ids@.len() implies !m0.minted(#[trigger] ids@[i]) && minter.minted(ids@[i])
            && m0.spec_next() <= ids@[i].spec_id() < m0.spec_next() + k by {
            let u = choose|u: int| 0 <= u < pids@.len() && pids@[u] == ids@[i];
        }
        if n > 0 {
            assert forall|j1: int, j2: int| 0 <= j1 < j2 < k implies pids@[j1] != pids@[j2] by {
                assert(pids@[j1].spec_id() == m0.spec_next() + j1);
                assert(pids@[j2].spec_id() == m0.spec_next() + j2);
            }
            assert(crate::multi_jagged::run_assignment(
                weights@,
                ids@,
                k as int,
                perm@,
                positions@,
                pids@,
            ));
            assert(hilbert_sorted(perm@, points@, order as nat)
                && crate::multi_jagged::run_assignment(
                weights@,
                ids@,
                k as int,
                perm@,
                positions@,
                pids@,
            ));
        }
    }
    ids
}


/// Scaling numerator and denominator by the same positive factor leaves
/// a quotient unchanged.
proof fn lemma_div_scale(u: int, d: int, a: int)
    requires
        d >= 1,
        a >= 1,
    ensures
        (a * u) / (a * d) == u / d,
{
    vstd::arithmetic::div_mod::lemma_fundamental_div_mod(u, d);
    let q = u / d;
    let r = u % d;
    assert(a * u == (a * d) * q + a * r) by (nonlinear_arith)
        requires u == d * q + r;
    assert(0 <= a * r < a * d) by (nonlinear_arith)
        requires 0 <= r < d, a >= 1;
    assert(a * d != 0) by (nonlinear_arith)
        requires a >= 1, d >= 1;
    vstd::arithmetic::div_mod::lemma_fundamental_div_mod_converse(a * u, a * d, q, a * r);
}

/// The grid map is invariant under a positive affine rescaling of the
/// axis: a rescaled coordinate in the rescaled range lands in the same
/// grid cell.
pub proof fn lemma_axis_map_affine(x: int, lo: int, hi: int, order: nat, a: int, b: int)
    requires
        a >= 1,
    ensures
        spec_axis_map(a * x + b, a * lo + b, a * hi + b, order) == spec_axis_map(
            x,
            lo,
            hi,
            order,
        ),
{
    if hi <= lo {
        assert(a * hi + b <= a * lo + b) by (nonlinear_arith)
            requires hi <= lo, a >= 1;
    } else {
        assert(a * hi + b > a * lo + b) by (nonlinear_arith)
            requires hi > lo, a >= 1;
        let m = ((1u64 << (order as u64)) - 1) as int;
        assert((a * x + b) - (a * lo + b) == a * (x - lo)) by (nonlinear_arith);
        assert((a * hi + b) - (a * lo + b) == a * (hi - lo)) by (nonlinear_arith);
        assert((a * (x - lo)) * m == a * ((x - lo) * m)) by (nonlinear_arith);
        lemma_div_scale((x - lo) * m, hi - lo, a);
    }
}

/// Law: the Hilbert index of a point is invariant under a positive affine
/// rescaling of each axis of the whole point set, so the Hilbert ordering
/// of the rescaled set is the ordering of the original.
pub proof fn lemma_hilbert_rescale_invariant(
    ps: Seq<Point2D>,
    qs: Seq<Point2D>,
    i: int,
    order: nat,
    ax: int,
    bx: int,
    ay: int,
    cy: int,
)
    requires
        ps.len() == qs.len(),
        ps.len() >= 1,
        0 <= i < ps.len(),
        ax >= 1,
        ay >= 1,
        forall|t: int|
            0 <= t < ps.len() ==> (#[trigger] qs[t]).x as int == ax * (ps[t].x as int) + bx
                && qs[t].y as int == ay * (ps[t].y as int) + cy,
    ensures
        spec_hilbert_index(qs, i, order) == spec_hilbert_index(ps, i, order),
{
    crate::geometry::lemma_from_points_affine(ps, qs, ax, bx, ay, cy);
    let bp = Aabb2D::spec_from_points(ps);
    let bq = Aabb2D::spec_from_points(qs);
    lemma_axis_map_affine(ps[i].x as int, bp.min.x as int, bp.max.x as int, order, ax, bx);
    lemma_axis_map_affine(ps[i].y as int, bp.min.y as int, bp.max.y as int, order, ay, cy);
    assert(ax * (ps[i].x as int) + bx == qs[i].x as int);
    assert(ay * (ps[i].y as int) + cy == qs[i].y as int);
    assert(spec_axis_map(qs[i].x as int, bq.min.x as int, bq.max.x as int, order)
        == spec_axis_map(ps[i].x as int, bp.min.x as int, bp.max.x as int, order));
    assert(spec_axis_map(qs[i].y as int, bq.min.y as int, bq.max.y as int, order)
        == spec_axis_map(ps[i].y as int, bp.min.y as int, bp.max.y as int, order));
}

} // verus!
