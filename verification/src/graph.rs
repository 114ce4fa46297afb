//! The topology kernel: a symmetric sparse element adjacency in CSR form,
//! its construction from mesh connectivity, and the cut size of a
//! partition.

use vstd::prelude::*;
use crate::pid::Pid;
use crate::split::MAX_POINTS;
use crate::split::WEIGHT_LIMIT;

verus! {

/// A sparse symmetric adjacency over non-negative edge weights, in
/// compressed sparse rows: row `u` holds the entries
/// `adjncy[xadj[u] .. xadj[u + 1]]` with their edge weights.
pub struct Adjacency {
    pub xadj: Vec<usize>,
    pub adjncy: Vec<usize>,
    pub eweights: Vec<u64>,
}

impl Adjacency {
    /// Number of vertices.
    pub open spec fn spec_n(self) -> int {
        self.xadj@.len() - 1
    }

    /// The arrays describe a graph: monotone row starts, neighbor indices
    /// in range, one weight per entry, and weights on the grid.
    pub open spec fn wf(self) -> bool {
        &&& self.xadj@.len() >= 1
        &&& self.spec_n() <= MAX_POINTS
        &&& self.adjncy@.len() == self.eweights@.len()
        &&& self.adjncy@.len() <= MAX_POINTS
        &&& self.xadj@[0] == 0
        &&& self.xadj@[self.xadj@.len() - 1] == self.adjncy@.len()
        &&& forall|u: int|
            0 <= u < self.spec_n() ==> #[trigger] self.xadj@[u] <= self.xadj@[u + 1]
        &&& forall|e: int|
            0 <= e < self.adjncy@.len() ==> (#[trigger] self.adjncy@[e]) < self.spec_n()
        &&& forall|e: int|
            0 <= e < self.eweights@.len() ==> (#[trigger] self.eweights@[e]) <= WEIGHT_LIMIT
    }

    /// Number of vertices.
    pub fn n(&self) -> (r: usize)
        requires
            self.wf(),
        ensures
            r == self.spec_n(),
    {
        self.xadj.len() - 1
    }
}

/// The cut contributed by the first `j` entries of row `u`: the weight of
/// each entry whose endpoints carry different labels, counted only in the
/// direction `u < v` so a symmetric edge is counted once.
pub open spec fn spec_row_cut(adj: Adjacency, ids: Seq<Pid>, u: int, j: int) -> int
    decreases j,
{
    if j <= 0 {
        0
    } else {
        let e = adj.xadj@[u] + j - 1;
        let v = adj.adjncy@[e] as int;
        spec_row_cut(adj, ids, u, j - 1) + if u < v && ids[u] != ids[v] {
            adj.eweights@[e] as int
        } else {
            0
        }
    }
}

/// The cut of the first `u` rows.
pub open spec fn spec_cut_rows(adj: Adjacency, ids: Seq<Pid>, u: int) -> int
    decreases u,
{
    if u <= 0 {
        0
    } else {
        spec_cut_rows(adj, ids, u - 1) + spec_row_cut(
            adj,
            ids,
            u - 1,
            adj.xadj@[u] - adj.xadj@[u - 1],
        )
    }
}

/// The cut size of a labelling: the total weight of the edges whose
/// endpoints carry different labels, each edge counted once.
pub open spec fn spec_cut(adj: Adjacency, ids: Seq<Pid>) -> int {
    spec_cut_rows(adj, ids, adj.spec_n())
}

/// Row cuts are bounded by the number of entries.
proof fn lemma_row_cut_bounds(adj: Adjacency, ids: Seq<Pid>, u: int, j: int)
    requires
        adj.wf(),
        j >= 0,
        0 <= u < adj.spec_n(),
        adj.xadj@[u] + j <= adj.adjncy@.len(),
    ensures
        0 <= spec_row_cut(adj, ids, u, j) <= j * (WEIGHT_LIMIT as int),
    decreases j,
{
    if j == 0 {
        assert(0 * (WEIGHT_LIMIT as int) == 0) by (nonlinear_arith);
    } else {
        lemma_row_cut_bounds(adj, ids, u, j - 1);
        let e = adj.xadj@[u] + j - 1;
        assert(0 <= e < adj.eweights@.len());
        assert(adj.eweights@[e] <= WEIGHT_LIMIT);
        assert((j - 1) * (WEIGHT_LIMIT as int) + (WEIGHT_LIMIT as int) == j * (
        WEIGHT_LIMIT as int)) by (nonlinear_arith);
    }
}

/// The total cut is bounded by the number of entries.
proof fn lemma_cut_rows_bounds(adj: Adjacency, ids: Seq<Pid>, u: int)
    requires
        adj.wf(),
        0 <= u <= adj.spec_n(),
    ensures
        0 <= spec_cut_rows(adj, ids, u) <= (adj.xadj@[u] as int) * (WEIGHT_LIMIT as int),
    decreases u,
{
    if u == 0 {
        assert(0 <= 0 * (WEIGHT_LIMIT as int)) by (nonlinear_arith);
    } else {
        lemma_cut_rows_bounds(adj, ids, u - 1);
        lemma_xadj_mono(adj, u, adj.spec_n());
        lemma_row_cut_bounds(adj, ids, u - 1, adj.xadj@[u] - adj.xadj@[u - 1]);
        assert((adj.xadj@[u - 1] as int) * (WEIGHT_LIMIT as int) + (adj.xadj@[u] - adj.xadj@[u
            - 1]) * (WEIGHT_LIMIT as int) == (adj.xadj@[u] as int) * (WEIGHT_LIMIT as int))
            by (nonlinear_arith);
    }
}

/// The cut size of a labelling.
#[verifier::rlimit(100)]
pub fn cut_size(adj: &Adjacency, ids: &Vec<Pid>) -> (r: u64)
    requires
        adj.wf(),
        ids@.len() == adj.spec_n(),
    ensures
        r as int == spec_cut(*adj, ids@),
{
    let n = adj.xadj.len() - 1;
    let mut acc: u64 = 0;
    let mut u: usize = 0;
    proof {
        lemma_cut_rows_bounds(*adj, ids@, adj.spec_n());
    }
    while u < n
        invariant
            0 <= u <= n,
            n == adj.spec_n(),
            adj.wf(),
            ids@.len() == n,
            acc as int == spec_cut_rows(*adj, ids@, u as int),
        decreases n - u,
    {
        let lo = adj.xadj[u];
        let hi = adj.xadj[u + 1];
        proof {
            lemma_cut_rows_bounds(*adj, ids@, u as int);
            lemma_cut_rows_bounds(*adj, ids@, u as int + 1);
            assert(lo <= hi <= adj.adjncy@.len()) by {
                assert(adj.xadj@[u as int] <= adj.xadj@[u as int + 1]);
                lemma_xadj_mono(*adj, u as int + 1, adj.spec_n());
            }
            lemma_row_cut_bounds(*adj, ids@, u as int, hi - lo);
            assert((adj.xadj@[u as int + 1] as int) * (WEIGHT_LIMIT as int) <= (
            MAX_POINTS as int) * (WEIGHT_LIMIT as int) && (MAX_POINTS as int) * (
            WEIGHT_LIMIT as int) < u64::MAX) by (nonlinear_arith)
                requires adj.xadj@[u as int + 1] <= MAX_POINTS;
        }
        let mut e: usize = lo;
        while e < hi
            invariant
                lo <= e <= hi,
                u < n,
                n == adj.spec_n(),
                adj.wf(),
                ids@.len() == n,
                lo == adj.xadj@[u as int],
                hi == adj.xadj@[u as int + 1],
                hi <= adj.adjncy@.len(),
                acc as int == spec_cut_rows(*adj, ids@, u as int) + spec_row_cut(
                    *adj,
                    ids@,
                    u as int,
                    e - lo,
                ),
                spec_cut_rows(*adj, ids@, u as int) + spec_row_cut(*adj, ids@, u as int, hi - lo)
                    <= (adj.xadj@[u as int + 1] as int) * (WEIGHT_LIMIT as int),
                (adj.xadj@[u as int + 1] as int) * (WEIGHT_LIMIT as int) < u64::MAX,
            decreases hi - e,
        {
            let v = adj.adjncy[e];
            proof {
                lemma_row_cut_bounds(*adj, ids@, u as int, e - lo + 1);
                lemma_row_cut_bounds(*adj, ids@, u as int, hi - lo);
                lemma_row_cut_prefix(*adj, ids@, u as int, e - lo + 1, hi - lo);
                lemma_cut_rows_bounds(*adj, ids@, u as int);
            }
            if u < v && !(ids[u] == ids[v]) {
                acc = acc + adj.eweights[e];
            }
            e = e + 1;
        }
        proof {
            assert(spec_cut_rows(*adj, ids@, u as int + 1) == spec_cut_rows(*adj, ids@, u as int)
                + spec_row_cut(*adj, ids@, u as int, hi - lo));
        }
        u = u + 1;
    }
    acc
}

/// The entries of one row lie inside the entry arrays.
pub proof fn lemma_xadj_span(adj: Adjacency, v: int)
    requires
        adj.wf(),
        0 <= v < adj.spec_n(),
    ensures
        adj.xadj@[v] <= adj.xadj@[v + 1] <= adj.adjncy@.len(),
        adj.xadj@[v + 1] - adj.xadj@[v] <= MAX_POINTS,
{
    lemma_xadj_mono(adj, v + 1, adj.spec_n());
    assert(adj.xadj@[v] <= adj.xadj@[v + 1]);
}

/// Row starts are monotone across any span.
proof fn lemma_xadj_mono(adj: Adjacency, a: int, b: int)
    requires
        adj.wf(),
        0 <= a <= b <= adj.spec_n(),
    ensures
        adj.xadj@[a] <= adj.xadj@[b],
    decreases b - a,
{
    if a < b {
        lemma_xadj_mono(adj, a, b - 1);
        assert(adj.xadj@[b - 1] <= adj.xadj@[b]);
    }
}

/// A longer row prefix contributes at least as much cut.
proof fn lemma_row_cut_prefix(adj: Adjacency, ids: Seq<Pid>, u: int, a: int, b: int)
    requires
        adj.wf(),
        0 <= a <= b,
        0 <= u < adj.spec_n(),
        adj.xadj@[u] + b <= adj.adjncy@.len(),
    ensures
        spec_row_cut(adj, ids, u, a) <= spec_row_cut(adj, ids, u, b),
    decreases b - a,
{
    if a < b {
        lemma_row_cut_prefix(adj, ids, u, a, b - 1);
        let e = adj.xadj@[u] + b - 1;
        assert(0 <= e < adj.eweights@.len());
        assert(adj.eweights@[e] >= 0);
    }
}

/// How many nodes two elements share.
pub open spec fn spec_shared(a: Seq<usize>, b: Seq<usize>, i: int) -> int
    decreases i,
{
    if i <= 0 {
        0
    } else {
        spec_shared(a, b, i - 1) + if b.contains(a[i - 1]) {
            1int
        } else {
            0
        }
    }
}

/// Count the nodes two elements share.
fn count_shared(a: &Vec<usize>, b: &Vec<usize>) -> (r: usize)
    requires
        a@.len() <= 8,
    ensures
        r == spec_shared(a@, b@, a@.len() as int),
{
    let mut r: usize = 0;
    let mut i: usize = 0;
    while i < a.len()
        invariant
            0 <= i <= a@.len(),
            a@.len() <= 8,
            r == spec_shared(a@, b@, i as int),
            r <= i,
        decreases a@.len() - i,
    {
        let x = a[i];
        let mut found: bool = false;
        let mut j: usize = 0;
        while j < b.len()
            invariant
                0 <= j <= b@.len(),
                found ==> b@.contains(x),
                !found ==> forall|t: int| 0 <= t < j ==> b@[t] != x,
            decreases b@.len() - j,
        {
            if b[j] == x {
                found = true;
                proof {
                    assert(b@[j as int] == x);
                }
            }
            j = j + 1;
        }
        proof {
            if !found && b@.contains(x) {
                let t = choose|t: int| 0 <= t < b@.len() && b@[t] == x;
                assert(false);
            }
        }
        if found {
            r = r + 1;
        }
        i = i + 1;
    }
    r
}

/// Two elements are adjacent: distinct, sharing at least `threshold`
/// nodes.
pub open spec fn spec_adjacent(
    elements: Seq<Vec<usize>>,
    threshold: int,
    u: int,
    v: int,
) -> bool {
    &&& u != v
    &&& spec_shared(elements[u]@, elements[v]@, elements[u]@.len() as int) >= threshold
}

/// Build the symmetric element adjacency of a mesh block: row `u` lists,
/// in ascending order and with unit edge weights, exactly the elements
/// `v != u` that share at least `node_threshold` nodes with element `u`.
#[verifier::rlimit(100)]
pub fn adjacency_matrix(elements: &Vec<Vec<usize>>, node_threshold: usize) -> (adj: Adjacency)
    requires
        1 <= node_threshold,
        elements@.len() <= 0xFFFF,
        forall|i: int| 0 <= i < elements@.len() ==> (#[trigger] elements@[i])@.len() <= 8,
    ensures
        adj.wf(),
        adj.spec_n() == elements@.len(),
        forall|u: int, e: int|
            0 <= u < adj.spec_n() && #[trigger] adj.xadj@[u] <= e < adj.xadj@[u + 1]
                ==> spec_adjacent(
                elements@,
                node_threshold as int,
                u,
                #[trigger] adj.adjncy@[e] as int,
            ) && adj.eweights@[e] == 1,
        forall|u: int, v: int|
            0 <= u < adj.spec_n() && 0 <= v < adj.spec_n() && spec_adjacent(
                elements@,
                node_threshold as int,
                u,
                v,
            ) ==> exists|e: int|
                adj.xadj@[u] <= e < adj.xadj@[u + 1] && (#[trigger] adj.adjncy@[e]) == v,
        forall|u: int, e1: int, e2: int|
            0 <= u < adj.spec_n() && #[trigger] adj.xadj@[u] <= e1 < e2 < adj.xadj@[u + 1]
                ==> #[trigger] adj.adjncy@[e1] < #[trigger] adj.adjncy@[e2],
{
    let m = elements.len();
    let mut xadj: Vec<usize> = Vec::new();
    let mut adjncy: Vec<usize> = Vec::new();
    let mut eweights: Vec<u64> = Vec::new();
    xadj.push(0);
    let mut u: usize = 0;
    while u < m
        invariant
            0 <= u <= m,
            m == elements@.len(),
            m <= 0xFFFF,
            1 <= node_threshold,
            forall|i: int| 0 <= i < m ==> (#[trigger] elements@[i])@.len() <= 8,
            xadj@.len() == u + 1,
            xadj@[0] == 0,
            adjncy@.len() == eweights@.len(),
            adjncy@.len() <= u * m,
            xadj@[u as int] == adjncy@.len(),
            forall|t: int| 0 <= t <= u ==> #[trigger] xadj@[t] <= adjncy@.len(),
            forall|t: int| 0 <= t < u ==> #[trigger] xadj@[t] <= xadj@[t + 1],
            forall|e: int| 0 <= e < adjncy@.len() ==> (#[trigger] adjncy@[e]) < m,
            forall|e: int| 0 <= e < eweights@.len() ==> (#[trigger] eweights@[e]) == 1,
            forall|t: int, e: int|
                0 <= t < u && #[trigger] xadj@[t] <= e < xadj@[t + 1] ==> spec_adjacent(
                    elements@,
                    node_threshold as int,
                    t,
                    #[trigger] adjncy@[e] as int,
                ),
            forall|t: int, w: int|
                0 <= t < u && 0 <= w < m && spec_adjacent(
                    elements@,
                    node_threshold as int,
                    t,
                    w,
                ) ==> exists|e: int| xadj@[t] <= e < xadj@[t + 1] && (#[trigger] adjncy@[e]) == w,
            forall|t: int, e1: int, e2: int|
                0 <= t < u && #[trigger] xadj@[t] <= e1 < e2 < xadj@[t + 1]
                    ==> #[trigger] adjncy@[e1] < #[trigger] adjncy@[e2],
        decreases m - u,
    {
        let mut v: usize = 0;
        let ghost row_start = adjncy@.len() as int;
        while v < m
            invariant
                0 <= v <= m,
                u < m,
                m == elements@.len(),
                m <= 0xFFFF,
                1 <= node_threshold,
                forall|i: int| 0 <= i < m ==> (#[trigger] elements@[i])@.len() <= 8,
                xadj@.len() == u + 1,
                xadj@[0] == 0,
                adjncy@.len() == eweights@.len(),
                row_start <= adjncy@.len() <= row_start + v,
                row_start <= u * m,
                xadj@[u as int] == row_start,
                forall|t: int| 0 <= t <= u ==> #[trigger] xadj@[t] <= row_start,
                forall|t: int| 0 <= t < u ==> #[trigger] xadj@[t] <= xadj@[t + 1],
                forall|e: int| 0 <= e < adjncy@.len() ==> (#[trigger] adjncy@[e]) < m,
                forall|e: int| 0 <= e < eweights@.len() ==> (#[trigger] eweights@[e]) == 1,
                forall|t: int, e: int|
                    0 <= t < u && #[trigger] xadj@[t] <= e < xadj@[t + 1] ==> spec_adjacent(
                        elements@,
                        node_threshold as int,
                        t,
                        #[trigger] adjncy@[e] as int,
                    ),
                forall|t: int, w: int|
                    0 <= t < u && 0 <= w < m && spec_adjacent(
                        elements@,
                        node_threshold as int,
                        t,
                        w,
                    ) ==> exists|e: int|
                        xadj@[t] <= e < xadj@[t + 1] && (#[trigger] adjncy@[e]) == w,
                forall|t: int, e1: int, e2: int|
                    0 <= t < u && #[trigger] xadj@[t] <= e1 < e2 < xadj@[t + 1]
                        ==> #[trigger] adjncy@[e1] < #[trigger] adjncy@[e2],
                forall|e: int|
                    row_start <= e < adjncy@.len() ==> spec_adjacent(
                        elements@,
                        node_threshold as int,
                        u as int,
                        #[trigger] adjncy@[e] as int,
                    ) && (adjncy@[e] as int) < v,
                forall|w: int|
                    0 <= w < v && spec_adjacent(elements@, node_threshold as int, u as int, w)
                        ==> exists|e: int|
                        row_start <= e < adjncy@.len() && (#[trigger] adjncy@[e]) == w,
                forall|e1: int, e2: int|
                    row_start <= e1 < e2 < adjncy@.len() ==> #[trigger] adjncy@[e1]
                        < #[trigger] adjncy@[e2],
            decreases m - v,
        {
            let ghost before_row = adjncy@;
            if v != u {
                let shared = count_shared(&elements[u], &elements[v]);
                if shared >= node_threshold {
                    adjncy.push(v);
                    eweights.push(1);
                    proof {
                        assert forall|w: int|
                            0 <= w < v + 1 && spec_adjacent(
                                elements@,
                                node_threshold as int,
                                u as int,
                                w,
                            ) implies exists|e: int|
                            row_start <= e < adjncy@.len() && (#[trigger] adjncy@[e]) == w by {
                            if w < v {
                                let e = choose|e: int|
                                    row_start <= e < before_row.len() && (
                                    #[trigger] before_row[e]) == w;
                                assert(adjncy@[e] == w);
                            } else {
                                assert(adjncy@[adjncy@.len() - 1] == v as usize);
                            }
                        }
                        // Rows already finished keep their entries.
                        assert forall|t: int, w: int|
                            0 <= t < u && 0 <= w < m && spec_adjacent(
                                elements@,
                                node_threshold as int,
                                t,
                                w,
                            ) implies exists|e: int|
                            xadj@[t] <= e < xadj@[t + 1] && (#[trigger] adjncy@[e]) == w by {
                            let e = choose|e: int|
                                xadj@[t] <= e < xadj@[t + 1] && (#[trigger] before_row[e]) == w;
                            assert(xadj@[t + 1] <= row_start);
                            assert(adjncy@[e] == before_row[e]);
                        }
                    }
                } else {
                    proof {
                        if spec_adjacent(elements@, node_threshold as int, u as int, v as int) {
                            assert(false);
                        }
                    }
                }
            }
            v = v + 1;
        }
        proof {
            assert((u as int) * (m as int) + (m as int) == ((u + 1) as int) * (m as int))
                by (nonlinear_arith);
            assert(((u + 1) as int) * (m as int) <= 0xFFFF * 0xFFFF) by (nonlinear_arith)
                requires u + 1 <= m, m <= 0xFFFF;
        }
        xadj.push(adjncy.len());
        u = u + 1;
    }
    proof {
        assert((m as int) * (m as int) <= 0xFFFF * 0xFFFF) by (nonlinear_arith)
            requires m <= 0xFFFF;
    }
    Adjacency { xadj, adjncy, eweights }
}

} // verus!
