//! Local-search graph refiners: Kernighan–Lin pair swaps and
//! Fiduccia–Mattheyses single moves.
//!
//! Both walk an existing partition and an adjacency, flipping boundary
//! vertices to reduce the cut.  A pass applies up to a bounded number of
//! candidate flips, each vertex locked once flipped, tolerating a bounded
//! run of non-improving flips, rejecting flips that push the imbalance
//! over a bound; at pass end the labelling rewinds to the best state the
//! pass saw.  A pass that finds no improvement is a fixed point and stops
//! the refiner.  Across every pass the cut never increases, and the
//! labels in use are only those the initial partition already carried.

use vstd::prelude::*;
use crate::analysis::imbalance_max_diff;
use crate::graph::Adjacency;
use crate::graph::cut_size;
use crate::graph::spec_cut;
use crate::pid::Pid;
use crate::split::MAX_POINTS;
use crate::split::WEIGHT_LIMIT;
use crate::split::weights_in_range;

verus! {

/// A fresh copy of a labelling.
fn copy_ids(src: &Vec<Pid>) -> (r: Vec<Pid>)
    ensures
        r@ == src@,
{
    let mut r: Vec<Pid> = Vec::new();
    let mut i: usize = 0;
    while i < src.len()
        invariant
            0 <= i <= src@.len(),
            r@.len() == i,
            forall|t: int| 0 <= t < i ==> #[trigger] r@[t] == src@[t],
        decreases src@.len() - i,
    {
        r.push(src[i]);
        i = i + 1;
    }
    proof {
        assert(r@ =~= src@);
    }
    r
}

/// Overwrite a labelling with another of the same length.
fn restore_ids(dst: &mut Vec<Pid>, src: &Vec<Pid>)
    requires
        old(dst)@.len() == src@.len(),
    ensures
        final(dst)@ == src@,
{
    let mut i: usize = 0;
    while i < src.len()
        invariant
            0 <= i <= src@.len(),
            dst@.len() == src@.len(),
            forall|t: int| 0 <= t < i ==> #[trigger] dst@[t] == src@[t],
        decreases src@.len() - i,
    {
        dst.set(i, src[i]);
        i = i + 1;
    }
    proof {
        assert(dst@ =~= src@);
    }
}



/// The labelling with the labels at `a` and `b` exchanged.
pub open spec fn spec_swap(ids: Seq<Pid>, a: int, b: int) -> Seq<Pid> {
    ids.update(a, ids[b]).update(b, ids[a])
}

/// The labelling with the label at `v` replaced by `t`.
pub open spec fn spec_move(ids: Seq<Pid>, v: int, t: Pid) -> Seq<Pid> {
    ids.update(v, t)
}

/// Every two parts of the labelling weigh within `bound` of each other.
pub open spec fn balance_within(weights: Seq<u64>, ids: Seq<Pid>, bound: u64) -> bool {
    forall|pa: Pid, pb: Pid|
        ids.contains(pa) && ids.contains(pb) ==> crate::analysis::spec_part_weight(
            weights,
            ids,
            pa,
        ) - crate::analysis::spec_part_weight(weights, ids, pb) <= bound
}

/// A pair swap the balance bound admits: two vertices in different parts
/// whose exchanged labelling stays within the bound.
pub open spec fn swap_admissible(
    weights: Seq<u64>,
    ids: Seq<Pid>,
    a: int,
    b: int,
    bound: u64,
) -> bool {
    &&& 0 <= a < ids.len()
    &&& 0 <= b < ids.len()
    &&& a != b
    &&& ids[a] != ids[b]
    &&& balance_within(weights, spec_swap(ids, a, b), bound)
}

/// A single move the balance bound admits: a vertex moved into the part
/// of one of its neighbours, staying within the bound.
pub open spec fn move_admissible(
    adj: Adjacency,
    weights: Seq<u64>,
    ids: Seq<Pid>,
    v: int,
    e: int,
    bound: u64,
) -> bool {
    &&& 0 <= v < ids.len()
    &&& ids.len() == adj.spec_n()
    &&& adj.xadj@[v] <= e < adj.xadj@[v + 1]
    &&& ids[adj.adjncy@[e] as int] != ids[v]
    &&& balance_within(weights, spec_move(ids, v, ids[adj.adjncy@[e] as int]), bound)
}

/// The unlocked admissible pair swap of least resulting cut, found by
/// trying every candidate: its gain — the cut reduction — is evaluated
/// exactly.
#[verifier::rlimit(100)]
fn best_admissible_swap(
    adj: &Adjacency,
    weights: &Vec<u64>,
    ids: &Vec<Pid>,
    locked: &Vec<bool>,
    bound: u64,
) -> (r: (bool, usize, usize, u64))
    requires
        adj.wf(),
        ids@.len() == adj.spec_n(),
        weights@.len() == adj.spec_n(),
        locked@.len() == adj.spec_n(),
        weights@.len() <= MAX_POINTS,
        weights_in_range(weights@),
    ensures
        r.0 ==> {
            &&& (r.1 as int) < ids@.len()
            &&& (r.2 as int) < ids@.len()
            &&& !locked@[r.1 as int]
            &&& !locked@[r.2 as int]
            &&& swap_admissible(weights@, ids@, r.1 as int, r.2 as int, bound)
            &&& r.3 as int == spec_cut(*adj, spec_swap(ids@, r.1 as int, r.2 as int))
        },
        forall|a: int, b: int|
            0 <= a < ids@.len() && 0 <= b < ids@.len() && !locked@[a] && !locked@[b]
                && swap_admissible(weights@, ids@, a, b, bound) ==> r.0 && r.3 as int
                <= spec_cut(*adj, #[trigger] spec_swap(ids@, a, b)),
{
    let n = adj.n();
    let mut scratch = copy_ids(ids);
    let mut found: bool = false;
    let mut pa: usize = 0;
    let mut pb: usize = 0;
    let mut bc: u64 = 0;
    let mut a: usize = 0;
    while a < n
        invariant
            0 <= a <= n,
            n == adj.spec_n(),
            adj.wf(),
            ids@.len() == n,
            weights@.len() == n,
            locked@.len() == n,
            weights@.len() <= MAX_POINTS,
            weights_in_range(weights@),
            scratch@ == ids@,
            found ==> {
                &&& (pa as int) < n
                &&& (pb as int) < n
                &&& !locked@[pa as int]
                &&& !locked@[pb as int]
                &&& swap_admissible(weights@, ids@, pa as int, pb as int, bound)
                &&& bc as int == spec_cut(*adj, spec_swap(ids@, pa as int, pb as int))
            },
            forall|x: int, y: int|
                0 <= x < a && 0 <= y < n && !locked@[x] && !locked@[y] && swap_admissible(
                    weights@,
                    ids@,
                    x,
                    y,
                    bound,
                ) ==> found && bc as int <= spec_cut(*adj, #[trigger] spec_swap(ids@, x, y)),
        decreases n - a,
    {
        if !locked[a] {
            let mut b: usize = 0;
            while b < n
                invariant
                    0 <= b <= n,
                    a < n,
                    !locked@[a as int],
                    n == adj.spec_n(),
                    adj.wf(),
                    ids@.len() == n,
                    weights@.len() == n,
                    locked@.len() == n,
                    weights@.len() <= MAX_POINTS,
                    weights_in_range(weights@),
                    scratch@ == ids@,
                    found ==> {
                        &&& (pa as int) < n
                        &&& (pb as int) < n
                        &&& !locked@[pa as int]
                        &&& !locked@[pb as int]
                        &&& swap_admissible(weights@, ids@, pa as int, pb as int, bound)
                        &&& bc as int == spec_cut(*adj, spec_swap(ids@, pa as int, pb as int))
                    },
                    forall|x: int, y: int|
                        0 <= x < a && 0 <= y < n && !locked@[x] && !locked@[y]
                            && swap_admissible(weights@, ids@, x, y, bound) ==> found
                            && bc as int <= spec_cut(*adj, #[trigger] spec_swap(ids@, x, y)),
                    forall|y: int|
                        0 <= y < b && !locked@[y] && swap_admissible(
                            weights@,
                            ids@,
                            a as int,
                            y,
                            bound,
                        ) ==> found && bc as int <= spec_cut(
                            *adj,
                            #[trigger] spec_swap(ids@, a as int, y),
                        ),
                decreases n - b,
            {
                if b != a && !locked[b] && !(ids[a] == ids[b]) {
                    let ghost sw = spec_swap(ids@, a as int, b as int);
                    let va = scratch[a];
                    let vb = scratch[b];
                    scratch.set(a, vb);
                    scratch.set(b, va);
                    proof {
                        assert(scratch@ =~= sw);
                    }
                    let imb = imbalance_max_diff(weights, &scratch);
                    let c = cut_size(adj, &scratch);
                    scratch.set(a, va);
                    scratch.set(b, vb);
                    proof {
                        assert(scratch@ =~= ids@);
                    }
                    if imb <= bound {
                        proof {
                            assert(balance_within(weights@, sw, bound));
                        }
                        if !found || c < bc {
                            found = true;
                            pa = a;
                            pb = b;
                            bc = c;
                        }
                    } else {
                        proof {
                            // A pair over the bound is not admissible.
                            if balance_within(weights@, sw, bound) {
                                assert(sw.len() > 0);
                                let (qa, qb) = choose|qa: Pid, qb: Pid|
                                    sw.contains(qa) && sw.contains(qb) && imb as int
                                        == crate::analysis::spec_part_weight(weights@, sw, qa)
                                        - crate::analysis::spec_part_weight(weights@, sw, qb);
                                assert(false);
                            }
                        }
                    }
                }
                b = b + 1;
            }
        }
        a = a + 1;
    }
    (found, pa, pb, bc)
}

/// The unlocked admissible single move of least resulting cut, found by
/// trying every vertex against each of its neighbours' parts: its gain is
/// evaluated exactly.
#[verifier::rlimit(100)]
fn best_admissible_move(
    adj: &Adjacency,
    weights: &Vec<u64>,
    ids: &Vec<Pid>,
    locked: &Vec<bool>,
    bound: u64,
) -> (r: (bool, usize, usize, u64))
    requires
        adj.wf(),
        ids@.len() == adj.spec_n(),
        weights@.len() == adj.spec_n(),
        locked@.len() == adj.spec_n(),
        weights@.len() <= MAX_POINTS,
        weights_in_range(weights@),
    ensures
        r.0 ==> {
            &&& (r.1 as int) < ids@.len()
            &&& !locked@[r.1 as int]
            &&& (r.2 as int) < adj.adjncy@.len()
            &&& move_admissible(*adj, weights@, ids@, r.1 as int, r.2 as int, bound)
            &&& r.3 as int == spec_cut(
                *adj,
                spec_move(ids@, r.1 as int, ids@[adj.adjncy@[r.2 as int] as int]),
            )
        },
        forall|v: int, e: int|
            0 <= v < ids@.len() && !locked@[v] && move_admissible(
                *adj,
                weights@,
                ids@,
                v,
                e,
                bound,
            ) ==> r.0 && r.3 as int <= spec_cut(
                *adj,
                #[trigger] spec_move(ids@, v, ids@[adj.adjncy@[e] as int]),
            ),
{
    let n = adj.n();
    let mut scratch = copy_ids(ids);
    let mut found: bool = false;
    let mut pv: usize = 0;
    let mut pe: usize = 0;
    let mut bc: u64 = 0;
    let mut v: usize = 0;
    while v < n
        invariant
            0 <= v <= n,
            n == adj.spec_n(),
            adj.wf(),
            ids@.len() == n,
            weights@.len() == n,
            locked@.len() == n,
            weights@.len() <= MAX_POINTS,
            weights_in_range(weights@),
            scratch@ == ids@,
            found ==> {
                &&& (pv as int) < n
                &&& !locked@[pv as int]
                &&& (pe as int) < adj.adjncy@.len()
                &&& move_admissible(*adj, weights@, ids@, pv as int, pe as int, bound)
                &&& bc as int == spec_cut(
                    *adj,
                    spec_move(ids@, pv as int, ids@[adj.adjncy@[pe as int] as int]),
                )
            },
            forall|x: int, e: int|
                0 <= x < v && !locked@[x] && move_admissible(
                    *adj,
                    weights@,
                    ids@,
                    x,
                    e,
                    bound,
                ) ==> found && bc as int <= spec_cut(
                    *adj,
                    #[trigger] spec_move(ids@, x, ids@[adj.adjncy@[e] as int]),
                ),
        decreases n - v,
    {
        if !locked[v] {
            let lo = adj.xadj[v];
            let hi = adj.xadj[v + 1];
            proof {
                crate::graph::lemma_xadj_span(*adj, v as int);
            }
            let mut e: usize = lo;
            while e < hi
                invariant
                    lo <= e <= hi,
                    lo == adj.xadj@[v as int],
                    hi == adj.xadj@[v as int + 1],
                    hi <= adj.adjncy@.len(),
                    v < n,
                    !locked@[v as int],
                    n == adj.spec_n(),
                    adj.wf(),
                    ids@.len() == n,
                    weights@.len() == n,
                    locked@.len() == n,
                    weights@.len() <= MAX_POINTS,
                    weights_in_range(weights@),
                    scratch@ == ids@,
                    found ==> {
                        &&& (pv as int) < n
                        &&& !locked@[pv as int]
                        &&& (pe as int) < adj.adjncy@.len()
                        &&& move_admissible(*adj, weights@, ids@, pv as int, pe as int, bound)
                        &&& bc as int == spec_cut(
                            *adj,
                            spec_move(ids@, pv as int, ids@[adj.adjncy@[pe as int] as int]),
                        )
                    },
                    forall|x: int, f: int|
                        0 <= x < v && !locked@[x] && move_admissible(
                            *adj,
                            weights@,
                            ids@,
                            x,
                            f,
                            bound,
                        ) ==> found && bc as int <= spec_cut(
                            *adj,
                            #[trigger] spec_move(ids@, x, ids@[adj.adjncy@[f] as int]),
                        ),
                    forall|f: int|
                        adj.xadj@[v as int] <= f < e && move_admissible(
                            *adj,
                            weights@,
                            ids@,
                            v as int,
                            f,
                            bound,
                        ) ==> found && bc as int <= spec_cut(
                            *adj,
                            #[trigger] spec_move(ids@, v as int, ids@[adj.adjncy@[f] as int]),
                        ),
                decreases hi - e,
            {
                let u = adj.adjncy[e];
                if !(ids[u] == ids[v]) {
                    let ghost mv = spec_move(ids@, v as int, ids@[u as int]);
                    let target = scratch[u];
                    let old_label = scratch[v];
                    scratch.set(v, target);
                    proof {
                        assert(scratch@ =~= mv);
                    }
                    let imb = imbalance_max_diff(weights, &scratch);
                    let c = cut_size(adj, &scratch);
                    scratch.set(v, old_label);
                    proof {
                        assert(scratch@ =~= ids@);
                    }
                    if imb <= bound {
                        proof {
                            assert(balance_within(weights@, mv, bound));
                        }
                        if !found || c < bc {
                            found = true;
                            pv = v;
                            pe = e;
                            bc = c;
                        }
                    } else {
                        proof {
                            if balance_within(weights@, mv, bound) {
                                assert(mv.len() > 0);
                                let (qa, qb) = choose|qa: Pid, qb: Pid|
                                    mv.contains(qa) && mv.contains(qb) && imb as int
                                        == crate::analysis::spec_part_weight(weights@, mv, qa)
                                        - crate::analysis::spec_part_weight(weights@, mv, qb);
                                assert(false);
                            }
                        }
                    }
                }
                e = e + 1;
            }
        } else {
            proof {
                crate::graph::lemma_xadj_span(*adj, v as int);
            }
        }
        v = v + 1;
    }
    (found, pv, pe, bc)
}

/// The Kernighan–Lin refiner: passes of pairwise swaps between parts.
pub struct KernighanLin {
    pub max_passes: usize,
    pub max_flips_per_pass: usize,
    pub max_imbalance_per_flip: u64,
    pub max_bad_move_in_a_row: usize,
}

/// One refinement run of Kernighan–Lin.  Each pass repeatedly swaps the
/// labels of the unlocked admissible pair of best gain — evaluated
/// exactly, as the cut reduction of the candidate swap — and rewinds to
/// the best labelling the pass reached; a pass without improvement
/// restores its starting labelling and stops the run.  The cut never
/// increases, the run either improves the cut strictly or returns the
/// labelling exactly unchanged, every label of the result was already
/// present in the input, and whenever some admissible pair swap of the
/// initial labelling would lower the cut and the budgets allow a flip,
/// the cut strictly drops.
#[verifier::rlimit(60)]
pub fn kernighan_lin(
    adj: &Adjacency,
    weights: &Vec<u64>,
    ids: &mut Vec<Pid>,
    config: &KernighanLin,
)
    requires
        adj.wf(),
        old(ids)@.len() == adj.spec_n(),
        weights@.len() == adj.spec_n(),
        weights_in_range(weights@),
    ensures
        final(ids)@.len() == old(ids)@.len(),
        spec_cut(*adj, final(ids)@) <= spec_cut(*adj, old(ids)@),
        final(ids)@ == old(ids)@ || spec_cut(*adj, final(ids)@) < spec_cut(*adj, old(ids)@),
        forall|i: int| 0 <= i < final(ids)@.len() ==> old(ids)@.contains(#[trigger] final(ids)@[i]),
        (config.max_passes >= 1 && config.max_flips_per_pass >= 1 && exists|a: int, b: int|
            swap_admissible(weights@, old(ids)@, a, b, config.max_imbalance_per_flip)
                && spec_cut(*adj, #[trigger] spec_swap(old(ids)@, a, b)) < spec_cut(
                *adj,
                old(ids)@,
            )) ==> spec_cut(*adj, final(ids)@) < spec_cut(*adj, old(ids)@),
{
    let n = adj.n();
    let ghost orig = old(ids)@;
    let ghost prem = config.max_passes >= 1 && config.max_flips_per_pass >= 1 && exists|
        a: int,
        b: int,
    |
        swap_admissible(weights@, orig, a, b, config.max_imbalance_per_flip) && spec_cut(
            *adj,
            #[trigger] spec_swap(orig, a, b),
        ) < spec_cut(*adj, orig);
    proof {
        assert forall|i: int| 0 <= i < orig.len() implies orig.contains(#[trigger] orig[i]) by {}
    }
    let mut pass: usize = 0;
    while pass < config.max_passes
        invariant
            n == adj.spec_n(),
            adj.wf(),
            weights@.len() == n,
            weights_in_range(weights@),
            ids@.len() == n,
            orig.len() == n,
            orig == old(ids)@,
            prem == (config.max_passes >= 1 && config.max_flips_per_pass >= 1 && exists|
                a: int,
                b: int,
            |
                swap_admissible(weights@, orig, a, b, config.max_imbalance_per_flip) && spec_cut(
                    *adj,
                    #[trigger] spec_swap(orig, a, b),
                ) < spec_cut(*adj, orig)),
            spec_cut(*adj, ids@) <= spec_cut(*adj, orig),
            ids@ == orig || spec_cut(*adj, ids@) < spec_cut(*adj, orig),
            pass == 0 ==> ids@ == orig,
            prem && pass >= 1 ==> spec_cut(*adj, ids@) < spec_cut(*adj, orig),
            forall|i: int| 0 <= i < n ==> orig.contains(#[trigger] ids@[i]),
        decreases config.max_passes - pass,
    {
        let before = cut_size(adj, ids);
        let snapshot = copy_ids(ids);
        let mut best_ids = copy_ids(ids);
        let mut best_cut = before;
        let mut locked: Vec<bool> = Vec::new();
        let mut t: usize = 0;
        while t < n
            invariant
                0 <= t <= n,
                locked@.len() == t,
                forall|j: int| 0 <= j < t ==> !locked@[j],
            decreases n - t,
        {
            locked.push(false);
            t = t + 1;
        }
        let mut bad_run: usize = 0;
        let mut flip: usize = 0;
        while flip < config.max_flips_per_pass
            invariant
                n == adj.spec_n(),
                adj.wf(),
                weights@.len() == n,
                weights_in_range(weights@),
                ids@.len() == n,
                locked@.len() == n,
                orig.len() == n,
                best_ids@.len() == n,
                best_cut as int == spec_cut(*adj, best_ids@),
                best_cut <= before,
                bad_run <= config.max_bad_move_in_a_row,
                snapshot@.len() == n,
                before as int == spec_cut(*adj, snapshot@),
                spec_cut(*adj, snapshot@) <= spec_cut(*adj, orig),
                snapshot@ == orig || spec_cut(*adj, snapshot@) < spec_cut(*adj, orig),
                pass == 0 ==> snapshot@ == orig,
                prem == (config.max_passes >= 1 && config.max_flips_per_pass >= 1 && exists|
                    a: int,
                    b: int,
                |
                    swap_admissible(weights@, orig, a, b, config.max_imbalance_per_flip)
                        && spec_cut(*adj, #[trigger] spec_swap(orig, a, b)) < spec_cut(
                        *adj,
                        orig,
                    )),
                prem && pass >= 1 ==> spec_cut(*adj, snapshot@) < spec_cut(*adj, orig),
                prem && pass == 0 ==> (flip == 0 && ids@ == orig && (forall|i: int|
                    0 <= i < n ==> !locked@[i])) || best_cut < before,
                forall|i: int| 0 <= i < n ==> orig.contains(#[trigger] ids@[i]),
                forall|i: int| 0 <= i < n ==> orig.contains(#[trigger] best_ids@[i]),
                forall|i: int| 0 <= i < n ==> orig.contains(#[trigger] snapshot@[i]),
            ensures
                prem && pass == 0 ==> best_cut < before,
            decreases config.max_flips_per_pass - flip,
        {
            // The admissible swap of least resulting cut.
            let (found, pa, pb, cand) = best_admissible_swap(
                adj,
                weights,
                ids,
                &locked,
                config.max_imbalance_per_flip,
            );
            proof {
                // At the very first flip of the first pass, the promised
                // improving pair is still unlocked, so a candidate at
                // least as good is found.
                if prem && pass == 0 && flip == 0 && ids@ == orig && (forall|i: int|
                    0 <= i < n ==> !locked@[i]) {
                    let (aw, bw) = choose|aw: int, bw: int|
                        swap_admissible(weights@, orig, aw, bw, config.max_imbalance_per_flip)
                            && spec_cut(*adj, #[trigger] spec_swap(orig, aw, bw)) < spec_cut(
                            *adj,
                            orig,
                        );
                    assert(found && cand as int <= spec_cut(*adj, spec_swap(orig, aw, bw)));
                    assert(cand < before);
                }
            }
            if !found {
                break ;
            }
            // Apply the swap and lock the pair.
            let ghost pre_swap = ids@;
            let ia = ids[pa];
            let ib = ids[pb];
            ids.set(pa, ib);
            ids.set(pb, ia);
            proof {
                assert(ids@ =~= spec_swap(pre_swap, pa as int, pb as int));
                assert(orig.contains(pre_swap[pa as int]));
                assert(orig.contains(pre_swap[pb as int]));
                assert forall|i: int| 0 <= i < n implies orig.contains(#[trigger] ids@[i]) by {
                    if i != pa && i != pb {
                        assert(ids@[i] == pre_swap[i]);
                    }
                }
            }
            locked.set(pa, true);
            locked.set(pb, true);
            let now = cand;
            proof {
                assert(now as int == spec_cut(*adj, ids@));
            }
            if now < best_cut {
                best_cut = now;
                best_ids = copy_ids(ids);
                bad_run = 0;
            } else {
                if bad_run < config.max_bad_move_in_a_row {
                    bad_run = bad_run + 1;
                }
                if bad_run >= config.max_bad_move_in_a_row {
                    break ;
                }
            }
            flip = flip + 1;
        }
        // Rewind to the best labelling of this pass.
        restore_ids(ids, &best_ids);
        if best_cut >= before {
            // Fixed point: restore the pass's starting labelling.
            restore_ids(ids, &snapshot);
            return ;
        }
        pass = pass + 1;
    }
}



/// The Fiduccia–Mattheyses refiner: passes of single-vertex moves.
pub struct FiducciaMattheyses {
    pub max_passes: usize,
    pub max_flips_per_pass: usize,
    pub max_imbalance_per_flip: u64,
    pub max_bad_move_in_a_row: usize,
}

/// One refinement run of Fiduccia–Mattheyses.  Each pass repeatedly
/// applies the unlocked admissible single move of best gain — a vertex
/// into a neighbour's part, the gain evaluated exactly as the cut
/// reduction of the candidate move — and rewinds to the best labelling
/// the pass reached; a pass without improvement restores its starting
/// labelling and stops the run.  The cut never increases, the run either
/// improves the cut strictly or returns the labelling exactly unchanged,
/// every label of the result was already present in the input, and
/// whenever some admissible neighbour move of the initial labelling would
/// lower the cut and the budgets allow a flip, the cut strictly drops.
#[verifier::rlimit(60)]
pub fn fiduccia_mattheyses(
    adj: &Adjacency,
    weights: &Vec<u64>,
    ids: &mut Vec<Pid>,
    config: &FiducciaMattheyses,
)
    requires
        adj.wf(),
        old(ids)@.len() == adj.spec_n(),
        weights@.len() == adj.spec_n(),
        weights_in_range(weights@),
    ensures
        final(ids)@.len() == old(ids)@.len(),
        spec_cut(*adj, final(ids)@) <= spec_cut(*adj, old(ids)@),
        final(ids)@ == old(ids)@ || spec_cut(*adj, final(ids)@) < spec_cut(*adj, old(ids)@),
        forall|i: int| 0 <= i < final(ids)@.len() ==> old(ids)@.contains(#[trigger] final(ids)@[i]),
        (config.max_passes >= 1 && config.max_flips_per_pass >= 1 && exists|v: int, e: int|
            move_admissible(*adj, weights@, old(ids)@, v, e, config.max_imbalance_per_flip)
                && spec_cut(
                *adj,
                #[trigger] spec_move(old(ids)@, v, old(ids)@[adj.adjncy@[e] as int]),
            ) < spec_cut(*adj, old(ids)@)) ==> spec_cut(*adj, final(ids)@) < spec_cut(
            *adj,
            old(ids)@,
        ),
{
    let n = adj.n();
    let ghost orig = old(ids)@;
    let ghost prem = config.max_passes >= 1 && config.max_flips_per_pass >= 1 && exists|
        v: int,
        e: int,
    |
        move_admissible(*adj, weights@, orig, v, e, config.max_imbalance_per_flip) && spec_cut(
            *adj,
            #[trigger] spec_move(orig, v, orig[adj.adjncy@[e] as int]),
        ) < spec_cut(*adj, orig);
    proof {
        assert forall|i: int| 0 <= i < orig.len() implies orig.contains(#[trigger] orig[i]) by {}
    }
    let mut pass: usize = 0;
    while pass < config.max_passes
        invariant
            n == adj.spec_n(),
            adj.wf(),
            weights@.len() == n,
            weights_in_range(weights@),
            ids@.len() == n,
            orig.len() == n,
            orig == old(ids)@,
            prem == (config.max_passes >= 1 && config.max_flips_per_pass >= 1 && exists|
                v: int,
                e: int,
            |
                move_admissible(*adj, weights@, orig, v, e, config.max_imbalance_per_flip)
                    && spec_cut(
                    *adj,
                    #[trigger] spec_move(orig, v, orig[adj.adjncy@[e] as int]),
                ) < spec_cut(*adj, orig)),
            spec_cut(*adj, ids@) <= spec_cut(*adj, orig),
            ids@ == orig || spec_cut(*adj, ids@) < spec_cut(*adj, orig),
            pass == 0 ==> ids@ == orig,
            prem && pass >= 1 ==> spec_cut(*adj, ids@) < spec_cut(*adj, orig),
            forall|i: int| 0 <= i < n ==> orig.contains(#[trigger] ids@[i]),
        decreases config.max_passes - pass,
    {
        let before = cut_size(adj, ids);
        let snapshot = copy_ids(ids);
        let mut best_ids = copy_ids(ids);
        let mut best_cut = before;
        let mut locked: Vec<bool> = Vec::new();
        let mut t: usize = 0;
        while t < n
            invariant
                0 <= t <= n,
                locked@.len() == t,
                forall|j: int| 0 <= j < t ==> !locked@[j],
            decreases n - t,
        {
            locked.push(false);
            t = t + 1;
        }
        let mut bad_run: usize = 0;
        let mut flip: usize = 0;
        while flip < config.max_flips_per_pass
            invariant
                n == adj.spec_n(),
                adj.wf(),
                weights@.len() == n,
                weights_in_range(weights@),
                ids@.len() == n,
                locked@.len() == n,
                orig.len() == n,
                best_ids@.len() == n,
                best_cut as int == spec_cut(*adj, best_ids@),
                best_cut <= before,
                bad_run <= config.max_bad_move_in_a_row,
                snapshot@.len() == n,
                before as int == spec_cut(*adj, snapshot@),
                spec_cut(*adj, snapshot@) <= spec_cut(*adj, orig),
                snapshot@ == orig || spec_cut(*adj, snapshot@) < spec_cut(*adj, orig),
                pass == 0 ==> snapshot@ == orig,
                prem == (config.max_passes >= 1 && config.max_flips_per_pass >= 1 && exists|
                    v: int,
                    e: int,
                |
                    move_admissible(*adj, weights@, orig, v, e, config.max_imbalance_per_flip)
                        && spec_cut(
                        *adj,
                        #[trigger] spec_move(orig, v, orig[adj.adjncy@[e] as int]),
                    ) < spec_cut(*adj, orig)),
                prem && pass >= 1 ==> spec_cut(*adj, snapshot@) < spec_cut(*adj, orig),
                prem && pass == 0 ==> (flip == 0 && ids@ == orig && (forall|i: int|
                    0 <= i < n ==> !locked@[i])) || best_cut < before,
                forall|i: int| 0 <= i < n ==> orig.contains(#[trigger] ids@[i]),
                forall|i: int| 0 <= i < n ==> orig.contains(#[trigger] best_ids@[i]),
                forall|i: int| 0 <= i < n ==> orig.contains(#[trigger] snapshot@[i]),
            ensures
                prem && pass == 0 ==> best_cut < before,
            decreases config.max_flips_per_pass - flip,
        {
            // The admissible move of least resulting cut.
            let (found, pv, pe, cand) = best_admissible_move(
                adj,
                weights,
                ids,
                &locked,
                config.max_imbalance_per_flip,
            );
            proof {
                // At the very first flip of the first pass, the promised
                // improving move is still unlocked, so a candidate at
                // least as good is found.
                if prem && pass == 0 && flip == 0 && ids@ == orig && (forall|i: int|
                    0 <= i < n ==> !locked@[i]) {
                    let (vw, ew) = choose|vw: int, ew: int|
                        move_admissible(*adj, weights@, orig, vw, ew, config.max_imbalance_per_flip)
                            && spec_cut(
                            *adj,
                            #[trigger] spec_move(orig, vw, orig[adj.adjncy@[ew] as int]),
                        ) < spec_cut(*adj, orig);
                    assert(found && cand as int <= spec_cut(
                        *adj,
                        spec_move(orig, vw, orig[adj.adjncy@[ew] as int]),
                    ));
                    assert(cand < before);
                }
            }
            if !found {
                break ;
            }
            // Apply the move and lock the vertex.
            let ghost pre_move = ids@;
            let u = adj.adjncy[pe];
            let target = ids[u];
            ids.set(pv, target);
            proof {
                assert(ids@ =~= spec_move(pre_move, pv as int, pre_move[u as int]));
                assert(orig.contains(pre_move[u as int]));
                assert forall|i: int| 0 <= i < n implies orig.contains(#[trigger] ids@[i]) by {
                    if i != pv {
                        assert(ids@[i] == pre_move[i]);
                    }
                }
            }
            locked.set(pv, true);
            let now = cand;
            proof {
                assert(now as int == spec_cut(*adj, ids@));
            }
            if now < best_cut {
                best_cut = now;
                best_ids = copy_ids(ids);
                bad_run = 0;
            } else {
                if bad_run < config.max_bad_move_in_a_row {
                    bad_run = bad_run + 1;
                }
                if bad_run >= config.max_bad_move_in_a_row {
                    break ;
                }
            }
            flip = flip + 1;
        }
        // Rewind to the best labelling of this pass.
        restore_ids(ids, &best_ids);
        if best_cut >= before {
            restore_ids(ids, &snapshot);
            return ;
        }
        pass = pass + 1;
    }
}


/// [`KernighanLin`] over a fixed adjacency, usable as a partition
/// improver.
pub struct KernighanLinImprover {
    pub adjacency: Adjacency,
    pub config: KernighanLin,
}

impl crate::ImprovePartition for KernighanLinImprover {
    open spec fn improve_pre(
        &self,
        points: Seq<crate::geometry::Point2D>,
        weights: Seq<u64>,
        ids: Seq<Pid>,
    ) -> bool {
        &&& self.adjacency.wf()
        &&& ids.len() == self.adjacency.spec_n()
    }

    /// Law: a run of the refiner never increases the cut, and it either
    /// improves the cut strictly or leaves the labelling exactly as it
    /// was; refinement always completes, so the outcome is success.
    open spec fn improve_post(
        &self,
        points: Seq<crate::geometry::Point2D>,
        weights: Seq<u64>,
        old_ids: Seq<Pid>,
        new_ids: Seq<Pid>,
        outcome: Result<(), crate::error::Error>,
    ) -> bool {
        &&& spec_cut(self.adjacency, new_ids) <= spec_cut(self.adjacency, old_ids)
        &&& (new_ids == old_ids || spec_cut(self.adjacency, new_ids) < spec_cut(
            self.adjacency,
            old_ids,
        ))
        &&& outcome is Ok
    }

    fn improve_partition(
        &self,
        points: &Vec<crate::geometry::Point2D>,
        weights: &Vec<u64>,
        partition: &mut Vec<Pid>,
    ) -> (outcome: Result<(), crate::error::Error>) {
        kernighan_lin(&self.adjacency, weights, partition, &self.config);
        Ok(())
    }
}

/// [`FiducciaMattheyses`] over a fixed adjacency, usable as a partition
/// improver.
pub struct FiducciaMattheysesImprover {
    pub adjacency: Adjacency,
    pub config: FiducciaMattheyses,
}

impl crate::ImprovePartition for FiducciaMattheysesImprover {
    open spec fn improve_pre(
        &self,
        points: Seq<crate::geometry::Point2D>,
        weights: Seq<u64>,
        ids: Seq<Pid>,
    ) -> bool {
        &&& self.adjacency.wf()
        &&& ids.len() == self.adjacency.spec_n()
    }

    /// Law: a run of the refiner never increases the cut, and it either
    /// improves the cut strictly or leaves the labelling exactly as it
    /// was; refinement always completes, so the outcome is success.
    open spec fn improve_post(
        &self,
        points: Seq<crate::geometry::Point2D>,
        weights: Seq<u64>,
        old_ids: Seq<Pid>,
        new_ids: Seq<Pid>,
        outcome: Result<(), crate::error::Error>,
    ) -> bool {
        &&& spec_cut(self.adjacency, new_ids) <= spec_cut(self.adjacency, old_ids)
        &&& (new_ids == old_ids || spec_cut(self.adjacency, new_ids) < spec_cut(
            self.adjacency,
            old_ids,
        ))
        &&& outcome is Ok
    }

    fn improve_partition(
        &self,
        points: &Vec<crate::geometry::Point2D>,
        weights: &Vec<u64>,
        partition: &mut Vec<Pid>,
    ) -> (outcome: Result<(), crate::error::Error>) {
        fiduccia_mattheyses(&self.adjacency, weights, partition, &self.config);
        Ok(())
    }
}

} // verus!
