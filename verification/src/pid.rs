//! Part identifiers and their minting.
//!
//! A [`Pid`] is an opaque label for one part of a partition: it supports
//! equality and hashing and deliberately offers no arithmetic.  A
//! [`PidMinter`] hands fresh identifiers out of a monotonic counter, so
//! identifiers minted by one minter are pairwise distinct.

use vstd::prelude::*;

verus! {

/// An opaque identifier for one part of a partition.
///
/// Two identifiers returned by distinct calls of [`PidMinter::fresh`] on the
/// same minter are never equal.
#[derive(Clone, Copy, PartialEq, Eq, Structural, Hash, Debug)]
pub struct Pid {
    id: u64,
}

impl Pid {
    /// The counter value behind this identifier (specification only).
    pub closed spec fn spec_id(self) -> nat {
        self.id as nat
    }
}

/// Mints fresh [`Pid`]s out of a monotonic counter.
pub struct PidMinter {
    next: u64,
}

impl PidMinter {
    /// The counter value the next minted identifier will carry.
    pub closed spec fn spec_next(self) -> nat {
        self.next as nat
    }

    /// True of every identifier this minter has already handed out.
    pub closed spec fn minted(self, p: Pid) -> bool {
        p.spec_id() < self.spec_next()
    }

    /// Relation between the minter states before and after one
    /// [`PidMinter::fresh`] call that returned `p`.
    pub open spec fn mint_step(pre: PidMinter, post: PidMinter, p: Pid) -> bool {
        &&& post.spec_next() == pre.spec_next() + 1
        &&& p.spec_id() == pre.spec_next()
    }

    /// A new minter that has handed out no identifier yet.
    pub fn new() -> (m: PidMinter)
        ensures
            m.spec_next() == 0,
            forall|p: Pid| !m.minted(p),
    {
        PidMinter { next: 0 }
    }

    /// The counter value the next minted identifier will carry, so a
    /// caller can check the headroom a partitioner's precondition asks
    /// for.
    pub fn counter(&self) -> (r: u64)
        ensures
            r as nat == self.spec_next(),
    {
        self.next
    }

    /// Mint a fresh identifier: one that this minter has never handed out.
    pub fn fresh(&mut self) -> (p: Pid)
        requires
            old(self).spec_next() < u64::MAX as nat,
        ensures
            Self::mint_step(*old(self), *final(self), p),
            !old(self).minted(p),
            final(self).minted(p),
            forall|q: Pid| #[trigger] final(self).minted(q) <==> (old(self).minted(q) || q == p),
    {
        let p = Pid { id: self.next };
        self.next = self.next + 1;
        p
    }
}

/// A run of consecutive [`PidMinter::fresh`] calls: starting from `pre`, the
/// identifiers of `pids` were minted in order, leaving the minter at `post`.
pub open spec fn mints(pre: PidMinter, pids: Seq<Pid>, post: PidMinter) -> bool
    decreases pids.len(),
{
    if pids.len() == 0 {
        post == pre
    } else {
        exists|mid: PidMinter|
            #[trigger] PidMinter::mint_step(pre, mid, pids[0]) && mints(mid, pids.skip(1), post)
    }
}

proof fn lemma_mints_ids(pre: PidMinter, pids: Seq<Pid>, post: PidMinter)
    requires
        mints(pre, pids, post),
    ensures
        forall|i: int| 0 <= i < pids.len() ==> (#[trigger] pids[i].spec_id()) == pre.spec_next() + i,
    decreases pids.len(),
{
    if pids.len() > 0 {
        let mid = choose|mid: PidMinter|
            #[trigger] PidMinter::mint_step(pre, mid, pids[0]) && mints(mid, pids.skip(1), post);
        lemma_mints_ids(mid, pids.skip(1), post);
        assert forall|i: int| 0 <= i < pids.len() implies (#[trigger] pids[i].spec_id())
            == pre.spec_next() + i by {
            if i > 0 {
                assert(pids.skip(1)[i - 1] == pids[i]);
            }
        }
    }
}

/// A minter that has moved forward still knows every earlier identifier.
pub proof fn lemma_minted_monotone(a: PidMinter, b: PidMinter, q: Pid)
    requires
        a.minted(q),
        a.spec_next() <= b.spec_next(),
    ensures
        b.minted(q),
{
}

/// An identifier that a later minter state has not handed out was unknown
/// to every earlier state as well.
pub proof fn lemma_unminted_monotone(a: PidMinter, b: PidMinter, q: Pid)
    requires
        !b.minted(q),
        a.spec_next() <= b.spec_next(),
    ensures
        !a.minted(q),
{
}

/// An identifier minted between two minter states has its counter value in
/// the window those states span.
pub proof fn lemma_minted_window(a: PidMinter, b: PidMinter, q: Pid)
    requires
        !a.minted(q),
        b.minted(q),
    ensures
        a.spec_next() <= q.spec_id() < b.spec_next(),
{
}

/// The set of identifiers whose counter value lies in `[a, b)`.
pub closed spec fn pid_range(a: nat, b: nat) -> Set<Pid> {
    Set::new(|p: Pid| a <= p.spec_id() < b)
}

proof fn lemma_pid_range_len(a: nat, b: nat)
    requires
        a <= b,
    ensures
        pid_range(a, b).finite(),
        pid_range(a, b).len() <= b - a,
    decreases b - a,
{
    if a == b {
        assert(pid_range(a, b) =~= Set::<Pid>::empty());
    } else {
        lemma_pid_range_len(a, (b - 1) as nat);
        if b - 1 <= u64::MAX {
            assert(pid_range(a, b) =~= pid_range(a, (b - 1) as nat).insert(
                Pid { id: (b - 1) as u64 },
            ));
        } else {
            assert forall|p: Pid| pid_range(a, b).contains(p) implies pid_range(
                a,
                (b - 1) as nat,
            ).contains(p) by {
                assert(p.spec_id() <= u64::MAX);
            }
            assert(pid_range(a, b) =~= pid_range(a, (b - 1) as nat));
        }
    }
}

/// Law: a sequence of identifiers whose counter values all lie in a window
/// of width `w` holds at most `w` distinct identifiers.
pub proof fn lemma_distinct_pids_bounded(s: Seq<Pid>, a: nat, w: nat)
    requires
        forall|i: int| 0 <= i < s.len() ==> a <= (#[trigger] s[i]).spec_id() < a + w,
    ensures
        s.to_set().finite(),
        s.to_set().len() <= w,
{
    broadcast use vstd::seq_lib::seq_to_set_is_finite;

    lemma_pid_range_len(a, a + w);
    assert forall|p: Pid| s.to_set().contains(p) implies pid_range(a, a + w).contains(p) by {
        assert(s.contains(p));
        let i = choose|i: int| 0 <= i < s.len() && s[i] == p;
        assert(a <= s[i].spec_id() < a + w);
    }
    assert(s.to_set() <= pid_range(a, a + w));
    vstd::set_lib::lemma_len_subset(s.to_set(), pid_range(a, a + w));
}

/// Law: minting is collision-free.  However many identifiers a minter hands
/// out, one after another, no two of them are equal.
pub proof fn lemma_minting_collision_free(pre: PidMinter, pids: Seq<Pid>, post: PidMinter)
    requires
        mints(pre, pids, post),
    ensures
        forall|i: int, j: int| 0 <= i < j < pids.len() ==> pids[i] != pids[j],
{
    lemma_mints_ids(pre, pids, post);
    assert forall|i: int, j: int| 0 <= i < j < pids.len() implies pids[i] != pids[j] by {
        assert(pids[i].spec_id() == pre.spec_next() + i);
        assert(pids[j].spec_id() == pre.spec_next() + j);
    }
}

} // verus!
