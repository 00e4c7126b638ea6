//! Invariant laws of the engine, stated over the ghost model and proved from
//! the collection's well-formedness.

use vstd::prelude::*;
use vstd::multiset::Multiset;

use crate::collection::FuturesUnordered;
use crate::collection::outcomes_of;
use crate::computation::Outcome;

verus! {

/// Length matches membership: after any sequence of operations, `len` equals
/// the number of owner-set nodes reachable from `head_all` (the ghost owner
/// sequence mirrors exactly that list).
pub proof fn length_matches_membership(fu: FuturesUnordered)
    requires
        fu.wf(),
    ensures
        fu.len == fu.owner@.len(),
{
}

/// At-most-once yield: across any run, once the collection holds no more
/// computations and none was cancelled, the multiset of outcomes that `poll`
/// delivered equals the multiset of outcomes submitted — each exactly once.
pub proof fn at_most_once_yield(fu: FuturesUnordered)
    requires
        fu.wf(),
        fu.owner@.len() == 0,
        fu.cancelled@ == Multiset::<Outcome>::empty(),
    ensures
        fu.finished@ == fu.submitted@,
{
    assert(outcomes_of(fu.nodes@, fu.owner@) == Multiset::<Outcome>::empty());
    assert(fu.finished@.add(Multiset::<Outcome>::empty()).add(Multiset::<Outcome>::empty())
        =~= fu.finished@);
}

/// Ref-count balance: after the collection is destroyed and a node's
/// external notifier handles are all dropped, that node has been freed. The
/// one family of inputs left out: a node still sitting in the readiness
/// queue when the collection was destroyed keeps the queue's borrowed
/// reference, and the consumer that would revisit the stale entry no longer
/// exists, so that cell is never reclaimed.
pub proof fn ref_count_balance(fu: FuturesUnordered, n: usize)
    requires
        fu.wf(),
        !fu.collection_alive,
        0 < n < fu.nodes@.len(),
        fu.nodes@[n as int].handles@ == 0,
        !fu.in_ready(n),
    ensures
        fu.nodes@[n as int].freed,
{
    if !fu.node_at(n).freed {
        assert(fu.node_at(n) == fu.node_at(n));
        assert(!fu.in_owner(n));
        assert(fu.base_ref(n) == 0);
    }
}

} // verus!
