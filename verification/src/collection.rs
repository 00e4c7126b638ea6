//! The collection itself: the arena of nodes, the consumer-owned owner set,
//! the readiness queue, the shared head's reference count, and the consumer
//! operations `new`, `push`, `poll` and `destroy`.

use vstd::prelude::*;
use vstd::multiset::Multiset;

use crate::computation::Computation;
use crate::computation::Outcome;
use crate::node::NIL;
use crate::node::Node;
use crate::notifier::bump;
use crate::notifier::bumped;
use crate::state::MAX_REFS;
use crate::state::QUEUED;
use crate::state::abort;
use crate::state::is_queued;
use crate::state::refs_of;
use crate::state::lemma_clear_queued;
use crate::state::lemma_dec;
use crate::state::lemma_initial_word;
use crate::state::lemma_set_queued;

verus! {

/// A producer caught between the two steps of an enqueue: the head has been
/// swapped to `node`, but `prev` (the old head) does not link to it yet. The
/// queue is transiently inconsistent until the link is written.
#[derive(Clone, Copy, PartialEq, Eq, Structural, Debug)]
pub struct PendingEnqueue {
    pub prev: usize,
    pub node: usize,
}

/// What one step of the consumer-side dequeue observes.
#[derive(Clone, Copy, PartialEq, Eq, Structural, Debug)]
pub enum Dequeue {
    Data(usize),
    Empty,
    Inconsistent,
}

/// What one call of `poll` reports: a completed value, the collection's
/// exhaustion, a pending state, or a computation's error surfaced verbatim.
#[derive(Clone, Copy, PartialEq, Eq, Structural, Debug)]
pub enum PollResult {
    ReadySome(u64),
    ReadyNone,
    NotReady,
    Fault(u64),
}

/// The outcome a node's computation will produce; meaningful only while the
/// slot is occupied.
pub open spec fn outcome_at(nodes: Seq<Node>, n: usize) -> Outcome {
    match nodes[n as int].computation {
        Some(c) => c.outcome,
        None => Outcome::Value(0),
    }
}

/// The multiset of outcomes of the computations held by the nodes listed in
/// `o`.
pub open spec fn outcomes_of(nodes: Seq<Node>, o: Seq<usize>) -> Multiset<Outcome>
    decreases o.len(),
{
    if o.len() == 0 {
        Multiset::empty()
    } else {
        outcomes_of(nodes, o.drop_last()).insert(outcome_at(nodes, o.last()))
    }
}

/// How much work one queued node can still cause within a single poll: a
/// stale entry is released once, a live computation is polled and may
/// re-enqueue itself until it runs out of not-ready reports. The stub causes
/// none.
pub open spec fn node_work(nodes: Seq<Node>, n: usize) -> nat {
    if n == 0 {
        0
    } else {
        match nodes[n as int].computation {
            Some(c) => 2 + 2 * (c.remaining as nat),
            None => 1,
        }
    }
}

/// The work the whole readiness chain can still cause within a single poll;
/// the measure that bounds the poll loop.
pub open spec fn chain_work(nodes: Seq<Node>, c: Seq<usize>) -> nat
    decreases c.len(),
{
    if c.len() == 0 {
        0
    } else {
        node_work(nodes, c[0]) + chain_work(nodes, c.skip(1))
    }
}

/// Appending a node adds exactly its work.
pub proof fn lemma_chain_work_push(nodes: Seq<Node>, c: Seq<usize>, n: usize)
    ensures
        chain_work(nodes, c.push(n)) == chain_work(nodes, c) + node_work(nodes, n),
    decreases c.len(),
{
    if c.len() == 0 {
        assert(c.push(n).skip(1) =~= Seq::<usize>::empty());
        assert(c.push(n)[0] == n);
        assert(chain_work(nodes, c) == 0);
        assert(chain_work(nodes, Seq::<usize>::empty()) == 0);
        assert(chain_work(nodes, c.push(n)) == node_work(nodes, n) + chain_work(
            nodes,
            c.push(n).skip(1),
        ));
    } else {
        assert(c.push(n).skip(1) =~= c.skip(1).push(n));
        assert(c.push(n)[0] == c[0]);
        lemma_chain_work_push(nodes, c.skip(1), n);
        assert(chain_work(nodes, c.push(n)) == node_work(nodes, c[0]) + chain_work(
            nodes,
            c.push(n).skip(1),
        ));
        assert(chain_work(nodes, c) == node_work(nodes, c[0]) + chain_work(nodes, c.skip(1)));
    }
}

/// Work reads only the listed slots' computations.
pub proof fn lemma_chain_work_frame(nodes1: Seq<Node>, nodes2: Seq<Node>, c: Seq<usize>)
    requires
        forall|i: int|
            0 <= i < c.len() ==> #[trigger] c[i] < nodes1.len() && c[i] < nodes2.len()
                && nodes1[c[i] as int].computation == nodes2[c[i] as int].computation,
    ensures
        chain_work(nodes1, c) == chain_work(nodes2, c),
    decreases c.len(),
{
    if c.len() > 0 {
        assert forall|i: int|
            0 <= i < c.skip(1).len() implies #[trigger] c.skip(1)[i] < nodes1.len() && c.skip(1)[i]
                < nodes2.len() && nodes1[c.skip(1)[i] as int].computation == nodes2[c.skip(
            1,
        )[i] as int].computation by {
            assert(c.skip(1)[i] == c[i + 1]);
        }
        lemma_chain_work_frame(nodes1, nodes2, c.skip(1));
    }
}

/// Dropping a prefix never increases the work.
pub proof fn lemma_chain_work_skip(nodes: Seq<Node>, c: Seq<usize>, k: int)
    requires
        0 <= k <= c.len(),
    ensures
        chain_work(nodes, c.skip(k)) <= chain_work(nodes, c),
        forall|j: int|
            0 <= j < k ==> chain_work(nodes, c.skip(k)) + node_work(nodes, #[trigger] c[j])
                <= chain_work(nodes, c),
    decreases k,
{
    if k == 0 {
        assert(c.skip(0) =~= c);
    }
    if k > 0 {
        assert(c.skip(1).skip(k - 1) =~= c.skip(k));
        lemma_chain_work_skip(nodes, c.skip(1), k - 1);
        assert forall|j: int|
            0 <= j < k implies chain_work(nodes, c.skip(k)) + node_work(nodes, #[trigger] c[j])
                <= chain_work(nodes, c) by {
            if j > 0 {
                assert(c.skip(1)[j - 1] == c[j]);
            }
        }
    }
}

/// The multiset of outcomes of a list of computations.
pub open spec fn outcomes_list(cs: Seq<Computation>) -> Multiset<Outcome>
    decreases cs.len(),
{
    if cs.len() == 0 {
        Multiset::empty()
    } else {
        outcomes_list(cs.drop_last()).insert(cs.last().outcome)
    }
}

/// The unordered futures multiplexer. Every heap cell the engine ever
/// allocates lives in `nodes` and is named by its index; index 0 is the
/// permanently queued sentinel stub. The ghost `owner` and `chain` mirror
/// the owner set (front to back from `head_all`) and the readiness queue's
/// link chain (from `tail_readiness` up to the last linked node).
pub struct FuturesUnordered {
    pub nodes: Vec<Node>,
    pub len: usize,
    pub head_all: usize,
    pub head_readiness: usize,
    pub tail_readiness: usize,
    pub pending: Option<PendingEnqueue>,
    pub inner_ref_count: u64,
    pub inner_alive: bool,
    pub collection_alive: bool,
    pub parent_registered: bool,
    pub parent_wakes: u64,
    pub owner: Ghost<Seq<usize>>,
    pub chain: Ghost<Seq<usize>>,
    pub inner_handles: Ghost<nat>,
    pub live_out: Ghost<Multiset<Outcome>>,
    pub submitted: Ghost<Multiset<Outcome>>,
    pub finished: Ghost<Multiset<Outcome>>,
    pub cancelled: Ghost<Multiset<Outcome>>,
}

impl FuturesUnordered {
    /// The node stored at index `n`.
    pub open spec fn node_at(self, n: usize) -> Node {
        self.nodes@[n as int]
    }

    /// Whether `n` names a cell that has not been deallocated.
    pub open spec fn live(self, n: usize) -> bool {
        n < self.nodes@.len() && !self.node_at(n).freed
    }

    /// Membership in the owner set.
    pub open spec fn in_owner(self, n: usize) -> bool {
        self.owner@.contains(n)
    }

    /// Membership in the readiness queue's linked chain.
    pub open spec fn in_chain(self, n: usize) -> bool {
        self.chain@.contains(n)
    }

    /// Logical membership in the readiness queue: linked, or swapped in by a
    /// producer that has not finished linking.
    pub open spec fn in_ready(self, n: usize) -> bool {
        self.in_chain(n) || match self.pending {
            Some(pe) => pe.node == n,
            None => false,
        }
    }

    /// A queued real node whose computation is bound to complete within a
    /// single poll call: it is ready now, or it re-arms itself on every
    /// not-ready report until it is.
    pub open spec fn deliverable_at(self, n: usize) -> bool {
        &&& n != 0
        &&& self.in_chain(n)
        &&& match self.node_at(n).computation {
            Some(c) => c.remaining == 0 || c.self_notify,
            None => false,
        }
    }

    /// Some queued computation is bound to complete within this poll call.
    pub open spec fn some_deliverable(self) -> bool {
        exists|n: usize| self.deliverable_at(n)
    }

    /// A queued real node able to produce outcome `out` within this call.
    pub open spec fn was_deliverable(self, n: usize, out: Outcome) -> bool {
        &&& self.deliverable_at(n)
        &&& match self.node_at(n).computation {
            Some(c) => c.outcome == out,
            None => false,
        }
    }

    /// Whatever a poll reports as completed was the outcome of a computation
    /// the call found queued and bound to complete.
    pub open spec fn delivers(self, r: PollResult) -> bool {
        match r {
            PollResult::ReadySome(v) => exists|n: usize|
                #![trigger self.node_at(n)]
                self.was_deliverable(n, Outcome::Value(v)),
            PollResult::Fault(e) => exists|n: usize|
                #![trigger self.node_at(n)]
                self.was_deliverable(n, Outcome::Fault(e)),
            _ => true,
        }
    }

    /// The one structural reference a node may hold: the owner set's, which
    /// the readiness queue borrows while the node is queued, or the queue's
    /// own once the owner set has let go.
    pub open spec fn base_ref(self, n: usize) -> nat {
        if self.in_owner(n) || self.in_ready(n) {
            1
        } else {
            0
        }
    }

    /// Shape of the arena and of the stub: the sentinel holds no computation,
    /// carries a permanent QUEUED flag over a count of one, and stands in no
    /// owner links.
    pub open spec fn arena_ok(self) -> bool {
        &&& 1 <= self.nodes@.len()
        &&& self.nodes@.len() < NIL
        &&& self.node_at(0).computation.is_none()
        &&& self.node_at(0).state == QUEUED | 1
        &&& self.node_at(0).next_all == NIL
        &&& self.node_at(0).prev_all == NIL
        &&& self.node_at(0).handles@ == 0
        &&& (self.collection_alive ==> !self.node_at(0).freed)
    }

    /// One position of the owner list: a live real node whose links agree
    /// with its neighbours in the ghost sequence.
    pub open spec fn owner_entry_ok(self, i: int) -> bool {
        let o = self.owner@;
        &&& 0 < o[i] < self.nodes@.len()
        &&& !self.node_at(o[i]).freed
        &&& self.node_at(o[i]).prev_all == (if i == 0 {
            NIL
        } else {
            o[i - 1]
        })
        &&& self.node_at(o[i]).next_all == (if i == o.len() - 1 {
            NIL
        } else {
            o[i + 1]
        })
    }

    /// The owner set is a doubly-linked list headed by `head_all` whose
    /// members are exactly the ghost `owner` sequence, without duplicates.
    pub open spec fn owner_links_ok(self) -> bool {
        &&& forall|i: int| 0 <= i < self.owner@.len() ==> self.owner_entry_ok(i)
        &&& self.head_all == (if self.owner@.len() == 0 {
            NIL
        } else {
            self.owner@[0]
        })
        &&& forall|i: int, j: int|
            0 <= i < j < self.owner@.len() ==> self.owner@[i] != self.owner@[j]
    }

    /// Owner-set members hold their computation; every other live real node
    /// has an empty slot and null owner links.
    pub open spec fn owner_comp_ok(self) -> bool {
        &&& forall|i: int|
            0 <= i < self.owner@.len() ==> self.node_at(#[trigger] self.owner@[i]).computation.is_some()
        &&& forall|n: usize|
            #![trigger self.node_at(n)]
            0 < n < self.nodes@.len() && !self.node_at(n).freed && !self.in_owner(n) ==> {
                &&& self.node_at(n).computation.is_none()
                &&& self.node_at(n).next_all == NIL
                &&& self.node_at(n).prev_all == NIL
            }
    }

    /// One position of the readiness chain: in bounds, deallocated only if it
    /// is the stub, linked to its successor, the last link null.
    pub open spec fn chain_entry_ok(self, i: int) -> bool {
        let c = self.chain@;
        &&& c[i] < self.nodes@.len()
        &&& (c[i] != 0 ==> !self.node_at(c[i]).freed)
        &&& self.node_at(c[i]).next_readiness == (if i == c.len() - 1 {
            NIL
        } else {
            c[i + 1]
        })
    }

    /// The readiness queue: the chain runs from the consumer's tail along
    /// `next_readiness`; with no producer mid-enqueue it ends at the head,
    /// otherwise the head has been swapped to the pending node, which is not
    /// linked (nor reachable) yet.
    pub open spec fn chain_ok(self) -> bool {
        let c = self.chain@;
        &&& c.len() >= 1
        &&& c[0] == self.tail_readiness
        &&& forall|i: int| 0 <= i < c.len() ==> self.chain_entry_ok(i)
        &&& forall|i: int, j: int| 0 <= i < j < c.len() ==> c[i] != c[j]
        &&& match self.pending {
            None => c.last() == self.head_readiness,
            Some(pe) => {
                &&& c.last() == pe.prev
                &&& self.head_readiness == pe.node
                &&& 0 < pe.node < self.nodes@.len()
                &&& !self.node_at(pe.node).freed
                &&& self.node_at(pe.node).next_readiness == NIL
                &&& !c.contains(pe.node)
            },
        }
    }

    /// The QUEUED flag, with one node exempted (used between the consumer's
    /// dequeue of that node and its clearing of the flag): the flag is set on
    /// every node logically present in the readiness queue, set on every live
    /// real node whose computation is gone (the release procedure sets it to
    /// block any further enqueue), and a live node still holding its
    /// computation has the flag set only while it is actually queued.
    pub open spec fn flags_ok_except(self, ex: usize) -> bool {
        &&& forall|i: int|
            0 <= i < self.chain@.len() ==> is_queued(self.node_at(#[trigger] self.chain@[i]).state)
        &&& match self.pending {
            Some(pe) => is_queued(self.node_at(pe.node).state),
            None => true,
        }
        &&& forall|n: usize|
            #![trigger self.node_at(n)]
            0 < n < self.nodes@.len() && !self.node_at(n).freed
                && self.node_at(n).computation.is_none() ==> is_queued(self.node_at(n).state)
        &&& forall|n: usize|
            #![trigger self.node_at(n)]
            0 < n < self.nodes@.len() && n != ex && !self.node_at(n).freed && self.node_at(
                n,
            ).computation.is_some() && is_queued(self.node_at(n).state) ==> self.in_ready(n)
    }

    /// The QUEUED flag invariant with no exemption.
    pub open spec fn flags_ok(self) -> bool {
        self.flags_ok_except(NIL)
    }

    /// Reference counts, with one index exempted (used while an operation is
    /// mid-flight on that node): every live real node's count is its one
    /// structural reference plus its external handles, and at least one;
    /// deallocated nodes have no handles and stand in neither structure.
    pub open spec fn counts_ok_except(self, ex: usize) -> bool {
        forall|n: usize|
            #![trigger self.node_at(n)]
            0 < n < self.nodes@.len() && n != ex ==> {
                &&& (!self.node_at(n).freed ==> self.node_at(n).refs() as nat == self.base_ref(n)
                    + self.node_at(n).handles@ && self.node_at(n).refs() >= 1)
                &&& (self.node_at(n).freed ==> self.node_at(n).handles@ == 0 && !self.in_owner(n)
                    && !self.in_ready(n))
            }
    }

    /// Reference counts with no exemption.
    pub open spec fn counts_ok(self) -> bool {
        self.counts_ok_except(NIL)
    }

    /// The shared head's count: one reference per external notifier handle,
    /// plus the collection's own while it lives; destroyed exactly when the
    /// count reaches zero.
    pub open spec fn inner_ok(self) -> bool {
        &&& self.inner_ref_count as nat == self.inner_handles@ + (if self.collection_alive {
            1nat
        } else {
            0nat
        })
        &&& self.inner_alive == (self.inner_ref_count > 0)
    }

    /// `len` counts the owner set, which is always smaller than the arena (it
    /// never holds the stub); a destroyed collection owns nothing.
    pub open spec fn collection_ok(self) -> bool {
        &&& self.len == self.owner@.len()
        &&& self.owner@.len() < self.nodes@.len()
        &&& (!self.collection_alive ==> self.owner@.len() == 0)
    }

    /// The ghost multiset of outcomes still held matches the owner set.
    pub open spec fn live_out_ok(self) -> bool {
        self.live_out@ == outcomes_of(self.nodes@, self.owner@)
    }

    /// Conservation: everything submitted is delivered, cancelled, or still
    /// held — each exactly once.
    pub open spec fn sum_ok(self) -> bool {
        self.submitted@ == self.finished@.add(self.cancelled@).add(self.live_out@)
    }

    /// Full well-formedness, the invariant of every public operation.
    pub open spec fn wf(self) -> bool {
        &&& self.arena_ok()
        &&& self.owner_links_ok()
        &&& self.owner_comp_ok()
        &&& self.chain_ok()
        &&& self.flags_ok()
        &&& self.counts_ok()
        &&& self.inner_ok()
        &&& self.collection_ok()
        &&& self.live_out_ok()
        &&& self.sum_ok()
    }

    /// Constructs a new, empty collection: a freshly allocated stub that is
    /// permanently queued, the shared head holding one reference (the
    /// collection's own), and both queue ends at the stub.
    pub fn new() -> (r: FuturesUnordered)
        ensures
            r.wf(),
            r.collection_alive,
            r.inner_alive,
            !r.parent_registered,
            r.len == 0,
            r.nodes@.len() == 1,
            r.owner@ == Seq::<usize>::empty(),
            r.chain@ == seq![0usize],
            r.pending.is_none(),
            r.inner_ref_count == 1,
            r.inner_handles@ == 0,
            r.parent_wakes == 0,
            r.submitted@ == Multiset::<Outcome>::empty(),
            r.finished@ == Multiset::<Outcome>::empty(),
            r.cancelled@ == Multiset::<Outcome>::empty(),
    {
        let mut nodes: Vec<Node> = Vec::new();
        nodes.push(
            Node {
                computation: None,
                next_all: NIL,
                prev_all: NIL,
                next_readiness: NIL,
                state: QUEUED | 1,
                freed: false,
                handles: Ghost(0nat),
            },
        );
        let ghost chain0: Seq<usize> = seq![0usize];
        let r = FuturesUnordered {
            nodes,
            len: 0,
            head_all: NIL,
            head_readiness: 0,
            tail_readiness: 0,
            pending: None,
            inner_ref_count: 1,
            inner_alive: true,
            collection_alive: true,
            parent_registered: false,
            parent_wakes: 0,
            owner: Ghost(Seq::empty()),
            chain: Ghost(chain0),
            inner_handles: Ghost(0nat),
            live_out: Ghost(Multiset::empty()),
            submitted: Ghost(Multiset::empty()),
            finished: Ghost(Multiset::empty()),
            cancelled: Ghost(Multiset::empty()),
        };
        proof {
            lemma_initial_word();
            assert(r.chain@ == seq![0usize]);
            assert(r.chain_entry_ok(0));
            assert(r.live_out@ =~= outcomes_of(r.nodes@, r.owner@));
            assert(r.submitted@ =~= r.finished@.add(r.cancelled@).add(r.live_out@));
        }
        r
    }

    /// The number of in-flight computations: the size of the owner set. A
    /// plain read of consumer-only state.
    pub fn len(&self) -> (r: usize)
        ensures
            r == self.len,
            self.wf() ==> r == self.owner@.len(),
    {
        self.len
    }

    /// Whether the collection currently manages no computation.
    pub fn is_empty(&self) -> (r: bool)
        ensures
            r == (self.len == 0),
            self.wf() ==> r == (self.owner@.len() == 0),
    {
        self.len == 0
    }

    /// The sentinel's name. The stub is allocated with the collection and
    /// lives at a fixed index in the arena.
    pub fn stub(&self) -> (r: usize)
        ensures
            r == 0,
    {
        0
    }

    /// The enqueue step of the intrusive MPSC queue: null the node's link,
    /// swap it into the head, link the previous head to it. The caller has
    /// already claimed the node's QUEUED flag; the model runs producers one
    /// at a time, so no other enqueue is mid-flight.
    pub fn enqueue(&mut self, node: usize)
        requires
            old(self).chain_ok(),
            old(self).pending.is_none(),
            node < old(self).nodes@.len(),
            !old(self).in_chain(node),
            node != 0 ==> !old(self).node_at(node).freed,
        ensures
            final(self).chain_ok(),
            final(self).chain@ == old(self).chain@.push(node),
            final(self).nodes@.len() == old(self).nodes@.len(),
            forall|i: int|
                0 <= i < old(self).nodes@.len() ==> same_but_ready_link(
                    old(self).nodes@[i],
                    #[trigger] final(self).nodes@[i],
                ),
            forall|i: int|
                0 <= i < old(self).nodes@.len() && i != node && i != old(self).chain@.last()
                    ==> #[trigger] final(self).nodes@[i] == old(self).nodes@[i],
            final(self).head_readiness == node,
            final(self).len == old(self).len,
            final(self).head_all == old(self).head_all,
            final(self).tail_readiness == old(self).tail_readiness,
            final(self).pending == old(self).pending,
            final(self).inner_ref_count == old(self).inner_ref_count,
            final(self).inner_alive == old(self).inner_alive,
            final(self).collection_alive == old(self).collection_alive,
            final(self).parent_registered == old(self).parent_registered,
            final(self).parent_wakes == old(self).parent_wakes,
            final(self).owner == old(self).owner,
            final(self).inner_handles == old(self).inner_handles,
            final(self).live_out == old(self).live_out,
            final(self).submitted == old(self).submitted,
            final(self).finished == old(self).finished,
            final(self).cancelled == old(self).cancelled,
    {
        proof {
            assert(self.chain_entry_ok(self.chain@.len() - 1));
            assert(self.chain@.contains(self.chain@.last()));
        }
        let mut nd = self.nodes[node];
        nd.next_readiness = NIL;
        self.nodes.set(node, nd);
        let prev = self.head_readiness;
        self.head_readiness = node;
        let mut pv = self.nodes[prev];
        pv.next_readiness = node;
        self.nodes.set(prev, pv);
        proof {
            let c = self.chain@;
            self.chain@ = self.chain@.push(node);
            assert forall|i: int| 0 <= i < c.len() implies c[i] != node by {
                if c[i] == node {
                    assert(c.contains(node));
                }
            }
            assert forall|i: int| 0 <= i < self.chain@.len() implies self.chain_entry_ok(i) by {
                if i < c.len() {
                    assert(old(self).chain_entry_ok(i));
                }
            }
        }
    }
    /// Push a computation into the collection: allocate its node with one
    /// structural reference and the QUEUED flag already claimed, splice it at
    /// the head of the owner set, and enqueue it so the next poll visits it.
    /// The computation itself is not polled here.
    pub fn push(&mut self, computation: Computation)
        requires
            old(self).wf(),
            old(self).collection_alive,
            old(self).pending.is_none(),
            old(self).nodes@.len() + 1 < NIL,
        ensures
            final(self).wf(),
            final(self).collection_alive,
            final(self).inner_alive == old(self).inner_alive,
            final(self).pending.is_none(),
            final(self).len == old(self).len + 1,
            final(self).nodes@.len() == old(self).nodes@.len() + 1,
            final(self).owner@ == seq![(old(self).nodes@.len() as usize)] + old(self).owner@,
            final(self).chain@ == old(self).chain@.push((old(self).nodes@.len() as usize)),
            final(self).submitted@ == old(self).submitted@.insert(computation.outcome),
            final(self).finished@ == old(self).finished@,
            final(self).cancelled@ == old(self).cancelled@,
            final(self).inner_handles@ == old(self).inner_handles@,
            final(self).inner_ref_count == old(self).inner_ref_count,
            final(self).parent_wakes == old(self).parent_wakes,
            final(self).parent_registered == old(self).parent_registered,
            final(self).node_at((old(self).nodes@.len() as usize)).computation == Some(
                computation,
            ),
            final(self).node_at((old(self).nodes@.len() as usize)).state == QUEUED | 1,
            final(self).node_at((old(self).nodes@.len() as usize)).handles@ == 0,
            forall|m: usize|
                m < old(self).nodes@.len() ==> #[trigger] final(self).node_at(m).computation
                    == old(self).node_at(m).computation && final(self).node_at(m).state == old(
                    self,
                ).node_at(m).state && final(self).node_at(m).handles == old(self).node_at(m).handles
                    && final(self).node_at(m).freed == old(self).node_at(m).freed,
    {
        let n = self.nodes.len();
        let node = Node {
            computation: Some(computation),
            next_all: self.head_all,
            prev_all: NIL,
            next_readiness: NIL,
            state: QUEUED | 1,
            freed: false,
            handles: Ghost(0nat),
        };
        self.nodes.push(node);
        if self.head_all != NIL {
            proof {
                assert(old(self).owner@.len() > 0);
                assert(old(self).owner_entry_ok(0));
            }
            let mut h = self.nodes[self.head_all];
            h.prev_all = n;
            self.nodes.set(self.head_all, h);
        }
        self.head_all = n;
        proof {
            assert(old(self).owner@.len() < old(self).nodes@.len());
        }
        self.len = self.len + 1;
        proof {
            lemma_initial_word();
            self.owner@ = seq![n] + old(self).owner@;
            self.live_out@ = self.live_out@.insert(computation.outcome);
            self.submitted@ = self.submitted@.insert(computation.outcome);
            assert forall|i: int| 0 <= i < self.chain@.len() implies self.chain_entry_ok(i) by {
                assert(old(self).chain_entry_ok(i));
            }
            assert forall|i: int| 0 <= i < self.chain@.len() implies self.chain@[i] != n by {
                assert(old(self).chain_entry_ok(i));
            }
            if self.in_chain(n) {
                let k = crate::seqs::lemma_contains_index(self.chain@, n);
            }
        }
        self.enqueue(n);
        proof {
            let o = old(self).owner@;
            let onew = self.owner@;
            let c = old(self).chain@;
            crate::seqs::lemma_prepend_contains(n, o);
            crate::seqs::lemma_push_contains(c, n);
            assert forall|i: int| 0 <= i < o.len() implies #[trigger] o[i] < n by {
                assert(old(self).owner_entry_ok(i));
            }
            // the owner list after the head splice
            assert forall|i: int| 0 <= i < onew.len() implies self.owner_entry_ok(i) by {
                if i == 0 {
                    if o.len() > 0 {
                        assert(old(self).owner_entry_ok(0));
                    }
                } else {
                    assert(old(self).owner_entry_ok(i - 1));
                    assert(onew[i] == o[i - 1]);
                    if i - 1 > 0 {
                        assert(o[i - 1] != o[0]);
                    }
                }
            }
            assert forall|i: int, j: int| 0 <= i < j < onew.len() implies onew[i] != onew[j] by {
                if i == 0 {
                    assert(onew[j] == o[j - 1]);
                } else {
                    assert(onew[i] == o[i - 1] && onew[j] == o[j - 1]);
                }
            }
            // membership elsewhere is untouched
            assert forall|m: usize|
                0 < m < self.nodes@.len() && m != n implies (self.in_owner(m) == old(
                self,
            ).in_owner(m)) && (self.in_ready(m) == old(self).in_ready(m)) by {
                assert(onew.contains(m) <==> (m == n || o.contains(m)));
                assert(self.chain@.contains(m) <==> (m == n || c.contains(m)));
            }
            // all pre-existing nodes keep their consumer fields and state word
            assert forall|m: usize| m < old(self).nodes@.len() implies {
                &&& #[trigger] self.node_at(m).state == old(self).node_at(m).state
                &&& self.node_at(m).freed == old(self).node_at(m).freed
                &&& self.node_at(m).handles == old(self).node_at(m).handles
                &&& self.node_at(m).computation == old(self).node_at(m).computation
            } by {
                assert(self.nodes@[m as int].state == self.nodes@[m as int].state);
            }
            assert forall|m: usize| 0 < m < self.nodes@.len() && m != NIL implies {
                &&& (!self.node_at(m).freed ==> self.node_at(m).refs() as nat == self.base_ref(m)
                    + self.node_at(m).handles@ && self.node_at(m).refs() >= 1)
                &&& (self.node_at(m).freed ==> self.node_at(m).handles@ == 0 && !self.in_owner(m)
                    && !self.in_ready(m))
            } by {
                if m == n {
                    lemma_initial_word();
                    assert(onew[0] == n);
                    assert(self.in_owner(n));
                } else {
                    assert(old(self).node_at(m) == old(self).node_at(m));
                    assert(self.in_owner(m) == old(self).in_owner(m));
                    assert(self.in_ready(m) == old(self).in_ready(m));
                    assert(self.base_ref(m) == old(self).base_ref(m));
                }
            }
            assert(self.counts_ok());
            assert forall|i: int| 0 <= i < self.chain@.len() implies is_queued(
                self.node_at(#[trigger] self.chain@[i]).state,
            ) by {
                if i < c.len() {
                    assert(old(self).chain@[i] == self.chain@[i]);
                    assert(is_queued(old(self).node_at(old(self).chain@[i]).state));
                    assert(old(self).chain_entry_ok(i));
                } else {
                    lemma_initial_word();
                }
            }
            assert forall|m: usize|
                0 < m < self.nodes@.len() && !self.node_at(m).freed && self.node_at(
                    m,
                ).computation.is_none() implies is_queued(#[trigger] self.node_at(m).state) by {
                assert(m != n);
                assert(old(self).node_at(m) == old(self).node_at(m));
            }
            assert forall|m: usize|
                0 < m < self.nodes@.len() && !self.node_at(m).freed && self.node_at(
                    m,
                ).computation.is_some() && is_queued(self.node_at(m).state) implies self.in_ready(
                m,
            ) by {
                if m == n {
                    assert(self.chain@[self.chain@.len() - 1] == n);
                    assert(self.in_chain(n));
                } else {
                    assert(old(self).node_at(m) == old(self).node_at(m));
                    assert(self.in_ready(m) == old(self).in_ready(m));
                }
            }
            assert(self.flags_ok());
            assert forall|m: usize|
                0 < m < self.nodes@.len() && !self.node_at(m).freed && !self.in_owner(m) implies {
                &&& #[trigger] self.node_at(m).computation.is_none()
                &&& self.node_at(m).next_all == NIL
                &&& self.node_at(m).prev_all == NIL
            } by {
                assert(m != n);
                assert(old(self).node_at(m) == old(self).node_at(m));
                assert(self.in_owner(m) == old(self).in_owner(m));
                assert(self.nodes@[m as int].computation == self.nodes@[m as int].computation);
                if o.len() > 0 && m == o[0] {
                    assert(o.contains(m));
                } else {
                    assert(self.node_at(m).next_all == old(self).node_at(m).next_all);
                    assert(self.node_at(m).prev_all == old(self).node_at(m).prev_all);
                }
            }
            assert(self.owner_comp_ok());
            // the held outcomes gain exactly the new computation's outcome
            assert forall|i: int|
                0 <= i < o.len() implies #[trigger] o[i] < old(self).nodes@.len() && o[i]
                    < self.nodes@.len() && self.nodes@[o[i] as int].computation == old(
                self,
            ).nodes@[o[i] as int].computation by {
                assert(old(self).owner_entry_ok(i));
            }
            crate::seqs::lemma_outcomes_frame(old(self).nodes@, self.nodes@, o);
            crate::seqs::lemma_outcomes_prepend(self.nodes@, n, o);
            assert(outcome_at(self.nodes@, n) == computation.outcome);
            assert(self.live_out_ok());
            assert(old(self).finished@.add(old(self).cancelled@).add(old(self).live_out@).insert(
                computation.outcome,
            ) =~= old(self).finished@.add(old(self).cancelled@).add(
                old(self).live_out@.insert(computation.outcome),
            ));
            assert(self.sum_ok());
            assert(self.nodes@[0].state == self.nodes@[0].state);
            assert(self.arena_ok());
            assert(self.owner_links_ok());
            assert(self.chain_ok());
            assert(self.inner_ok());
            assert(self.collection_ok());
            assert(self.wf());
        }
    }

    /// The dequeue step of the intrusive MPSC queue. `Empty` means only the
    /// stub is reachable; `Inconsistent` means a producer has swapped the
    /// head but not linked its node yet, so the consumer must yield and
    /// retry; `Data(n)` hands one real node out of the queue, together with
    /// the structural reference the queue was borrowing — if the node has
    /// left the owner set, that reference is now the caller's to release.
    pub fn dequeue(&mut self) -> (r: Dequeue)
        requires
            old(self).wf(),
            old(self).collection_alive,
        ensures
            final(self).nodes@.len() == old(self).nodes@.len(),
            forall|i: int|
                0 <= i < old(self).nodes@.len() ==> same_but_ready_link(
                    old(self).nodes@[i],
                    #[trigger] final(self).nodes@[i],
                ),
            final(self).len == old(self).len,
            final(self).head_all == old(self).head_all,
            final(self).pending == old(self).pending,
            final(self).owner == old(self).owner,
            final(self).collection_alive,
            final(self).inner_ref_count == old(self).inner_ref_count,
            final(self).inner_alive == old(self).inner_alive,
            final(self).inner_handles == old(self).inner_handles,
            final(self).parent_registered == old(self).parent_registered,
            final(self).parent_wakes == old(self).parent_wakes,
            final(self).live_out == old(self).live_out,
            final(self).submitted == old(self).submitted,
            final(self).finished == old(self).finished,
            final(self).cancelled == old(self).cancelled,
            final(self).arena_ok(),
            final(self).owner_links_ok(),
            final(self).owner_comp_ok(),
            final(self).chain_ok(),
            final(self).inner_ok(),
            final(self).collection_ok(),
            final(self).live_out_ok(),
            final(self).sum_ok(),
            match r {
                Dequeue::Empty => *final(self) == *old(self) && old(self).chain@ == seq![0usize]
                    && final(self).counts_ok() && final(self).flags_ok(),
                Dequeue::Inconsistent => old(self).pending.is_some() && final(self).nodes == old(
                    self,
                ).nodes && final(self).counts_ok() && final(self).flags_ok()
                    && final(self).chain@[0] != 0 && (forall|x: usize|
                    x != 0 ==> final(self).in_chain(x) == old(self).in_chain(x)),
                Dequeue::Data(n) => {
                    &&& n == chain_front_real(old(self).chain@)
                    &&& 0 < n < old(self).nodes@.len()
                    &&& old(self).in_chain(n)
                    &&& !final(self).in_chain(n)
                    &&& !final(self).in_ready(n)
                    &&& !final(self).node_at(n).freed
                    &&& is_queued(final(self).node_at(n).state)
                    &&& final(self).node_at(n).refs() as nat == 1 + final(self).node_at(n).handles@
                    &&& final(self).counts_ok_except(n)
                    &&& final(self).flags_ok_except(n)
                    &&& (forall|x: usize|
                        x != 0 && x != n ==> final(self).in_chain(x) == old(self).in_chain(x))
                    &&& chain_work(final(self).nodes@, final(self).chain@) + node_work(
                        final(self).nodes@,
                        n,
                    ) <= chain_work(old(self).nodes@, old(self).chain@)
                },
            },
    {
        let ghost c = old(self).chain@;
        proof {
            assert(old(self).chain_entry_ok(0));
        }
        let mut tail = self.tail_readiness;
        let mut next = self.nodes[tail].next_readiness;
        let ghost mut skipped: int = 0;
        if tail == 0 {
            if next == NIL {
                proof {
                    if c.len() >= 2 {
                        assert(old(self).chain_entry_ok(1));
                        assert(c[1] < old(self).nodes@.len());
                    }
                    assert(c =~= seq![0usize]);
                    assert forall|i: int|
                        0 <= i < old(self).nodes@.len() implies same_but_ready_link(
                        old(self).nodes@[i],
                        #[trigger] self.nodes@[i],
                    ) by {}
                }
                return Dequeue::Empty;
            }
            proof {
                assert(c.len() >= 2);
                assert(next == c[1]);
                assert(old(self).chain_entry_ok(1));
                assert(c[1] != c[0]);
            }
            self.tail_readiness = next;
            tail = next;
            proof {
                self.chain@ = c.skip(1);
                skipped = 1;
                assert(self.chain@[0] == c[1]);
            }
            next = self.nodes[tail].next_readiness;
        }
        // from here the chain is c.skip(skipped), its front `tail` a real node
        proof {
            assert(self.chain@ =~= c.skip(skipped));
            assert(tail == c[skipped] && tail != 0);
            assert(old(self).chain_entry_ok(skipped));
            assert(next == (if skipped == c.len() - 1 {
                NIL
            } else {
                c[skipped + 1]
            }));
            if skipped < c.len() - 1 {
                assert(old(self).chain_entry_ok(skipped + 1));
                assert(c[skipped + 1] < old(self).nodes@.len());
            }
        }
        if next != NIL {
            proof {
                assert(skipped < c.len() - 1);
                assert(old(self).chain_entry_ok(skipped + 1));
            }
            self.tail_readiness = next;
            proof {
                self.chain@ = c.skip(skipped + 1);
                assert(c.contains(tail)) by {
                    assert(c[skipped] == tail);
                }
                self.lemma_dequeue_exit(*old(self), c, skipped + 1, tail);
            }
            return Dequeue::Data(tail);
        }
        if self.head_readiness != tail {
            proof {
                assert(skipped == c.len() - 1);
                if old(self).pending.is_none() {
                    assert(c.last() == old(self).head_readiness);
                }
                self.lemma_dequeue_exit(*old(self), c, skipped, 0);
            }
            return Dequeue::Inconsistent;
        }
        proof {
            assert(skipped == c.len() - 1);
            match old(self).pending {
                Some(pe) => {
                    assert(!c.contains(pe.node)) by {
                        assert(old(self).chain_ok());
                    }
                    assert(c[c.len() - 1] == tail);
                    assert(c.contains(tail));
                    assert(false);
                },
                None => {},
            }
            // the current chain is the one-node tail; the stub is free to re-enter
            assert forall|i: int| 0 <= i < self.chain@.len() implies self.chain_entry_ok(i) by {
                assert(old(self).chain_entry_ok(i + skipped));
                assert(self.chain@[i] == c[i + skipped]);
            }
            assert forall|i: int, j: int|
                0 <= i < j < self.chain@.len() implies self.chain@[i] != self.chain@[j] by {
                assert(c[i + skipped] != c[j + skipped]);
            }
            assert(self.chain_ok());
            if self.in_chain(0) {
                let k = crate::seqs::lemma_contains_index(self.chain@, 0);
                assert(c[k + skipped] == 0);
                assert(c[0] == 0 ==> skipped == 1);
                assert(false);
            }
        }
        let ghost cpre = self.chain@;
        self.enqueue(0);
        next = self.nodes[tail].next_readiness;
        proof {
            assert(self.chain@ == cpre.push(0));
            assert(self.chain_entry_ok(0));
            assert(self.chain_entry_ok(1));
            assert(self.chain@[0] == tail && self.chain@[1] == 0);
            assert(next == 0);
            assert(self.node_at(0).next_readiness == NIL);
        }
        if next != NIL {
            self.tail_readiness = next;
            proof {
                self.chain@ = seq![0usize];
                self.lemma_dequeue_stub_exit(*old(self), c, tail);
            }
            return Dequeue::Data(tail);
        }
        proof {
            assert(false);
        }
        Dequeue::Inconsistent
    }

    /// Remove `node`, standing at position `k` of the owner list, from the
    /// doubly-linked owner set: splice its neighbours together, advance
    /// `head_all` past a removed head, and null both of its links. Runs only
    /// on the consumer; nothing else ever inspects these links.
    pub(crate) fn unlink(&mut self, node: usize, Ghost(k): Ghost<int>)
        requires
            old(self).arena_ok(),
            old(self).owner_links_ok(),
            0 <= k < old(self).owner@.len(),
            old(self).owner@[k] == node,
        ensures
            final(self).owner@ == old(self).owner@.remove(k),
            final(self).arena_ok(),
            final(self).owner_links_ok(),
            final(self).nodes@.len() == old(self).nodes@.len(),
            final(self).node_at(node).next_all == NIL,
            final(self).node_at(node).prev_all == NIL,
            forall|i: int|
                0 <= i < old(self).nodes@.len() ==> same_but_owner_links(
                    old(self).nodes@[i],
                    #[trigger] final(self).nodes@[i],
                ),
            forall|i: int|
                0 <= i < old(self).nodes@.len() && i != node && !old(self).owner@.contains(
                    i as usize,
                ) ==> #[trigger] final(self).nodes@[i] == old(self).nodes@[i],
            final(self).len == old(self).len,
            final(self).head_readiness == old(self).head_readiness,
            final(self).tail_readiness == old(self).tail_readiness,
            final(self).pending == old(self).pending,
            final(self).chain == old(self).chain,
            final(self).collection_alive == old(self).collection_alive,
            final(self).inner_ref_count == old(self).inner_ref_count,
            final(self).inner_alive == old(self).inner_alive,
            final(self).inner_handles == old(self).inner_handles,
            final(self).live_out == old(self).live_out,
            final(self).submitted == old(self).submitted,
            final(self).finished == old(self).finished,
            final(self).cancelled == old(self).cancelled,
            final(self).parent_registered == old(self).parent_registered,
            final(self).parent_wakes == old(self).parent_wakes,
    {
        proof {
            assert(old(self).owner_entry_ok(k));
            if k > 0 {
                assert(old(self).owner_entry_ok(k - 1));
            }
            if k < old(self).owner@.len() - 1 {
                assert(old(self).owner_entry_ok(k + 1));
            }
        }
        let nd = self.nodes[node];
        let next = nd.next_all;
        let prev = nd.prev_all;
        let mut nd2 = nd;
        nd2.next_all = NIL;
        nd2.prev_all = NIL;
        self.nodes.set(node, nd2);
        if next != NIL {
            let mut nx = self.nodes[next];
            nx.prev_all = prev;
            self.nodes.set(next, nx);
        }
        if prev != NIL {
            let mut pv = self.nodes[prev];
            pv.next_all = next;
            self.nodes.set(prev, pv);
        } else {
            self.head_all = next;
        }
        proof {
            let o = old(self).owner@;
            o.remove_ensures(k);
            self.owner@ = o.remove(k);
            let on = self.owner@;
            assert forall|i: int| 0 <= i < on.len() implies self.owner_entry_ok(i) by {
                if i < k {
                    assert(old(self).owner_entry_ok(i));
                    assert(on[i] == o[i]);
                    if i > 0 {
                        assert(on[i - 1] == o[i - 1]);
                    }
                } else {
                    assert(old(self).owner_entry_ok(i + 1));
                    assert(on[i] == o[i + 1]);
                    if i > 0 && i - 1 < k {
                        assert(on[i - 1] == o[i - 1]);
                    }
                    if i > k {
                        assert(on[i - 1] == o[i]);
                    }
                }
                if i < on.len() - 1 {
                    if i + 1 < k {
                        assert(on[i + 1] == o[i + 1]);
                    } else {
                        assert(on[i + 1] == o[i + 2]);
                    }
                }
            }
            assert forall|i: int, j: int| 0 <= i < j < on.len() implies on[i] != on[j] by {
                let ii: int = if i < k {
                    i
                } else {
                    i + 1
                };
                let jj: int = if j < k {
                    j
                } else {
                    j + 1
                };
                assert(o[ii] != o[jj]);
            }
            assert(self.owner_links_ok());
            assert forall|i: int|
                0 <= i < old(self).nodes@.len() && i != node && !o.contains(i as usize)
                    implies #[trigger] self.nodes@[i] == old(self).nodes@[i] by {
                if k > 0 {
                    assert(o.contains(o[k - 1]));
                }
                if k < o.len() - 1 {
                    assert(o.contains(o[k + 1]));
                }
            }
        }
    }

    /// Drop one strong reference to a node, on any thread: subtract one from
    /// the state word; if that was the last reference, the payload must be
    /// gone already — only the consumer may drop it — and the cell is freed.
    pub(crate) fn release(&mut self, node: usize)
        requires
            0 < node < old(self).nodes@.len(),
            !old(self).node_at(node).freed,
            refs_of(old(self).node_at(node).state) >= 1,
            refs_of(old(self).node_at(node).state) == 1 ==> old(self).node_at(
                node,
            ).computation.is_none(),
        ensures
            final(self).nodes@.len() == old(self).nodes@.len(),
            forall|i: int|
                0 <= i < old(self).nodes@.len() && i != node ==> #[trigger] final(self).nodes@[i]
                    == old(self).nodes@[i],
            refs_of(final(self).node_at(node).state) == refs_of(old(self).node_at(node).state) - 1,
            is_queued(final(self).node_at(node).state) == is_queued(old(self).node_at(node).state),
            final(self).node_at(node).computation == old(self).node_at(node).computation,
            final(self).node_at(node).handles == old(self).node_at(node).handles,
            final(self).node_at(node).next_all == old(self).node_at(node).next_all,
            final(self).node_at(node).prev_all == old(self).node_at(node).prev_all,
            final(self).node_at(node).next_readiness == old(self).node_at(node).next_readiness,
            final(self).node_at(node).freed == (refs_of(old(self).node_at(node).state) == 1),
            final(self).len == old(self).len,
            final(self).head_all == old(self).head_all,
            final(self).head_readiness == old(self).head_readiness,
            final(self).tail_readiness == old(self).tail_readiness,
            final(self).pending == old(self).pending,
            final(self).owner == old(self).owner,
            final(self).chain == old(self).chain,
            final(self).collection_alive == old(self).collection_alive,
            final(self).inner_ref_count == old(self).inner_ref_count,
            final(self).inner_alive == old(self).inner_alive,
            final(self).inner_handles == old(self).inner_handles,
            final(self).live_out == old(self).live_out,
            final(self).submitted == old(self).submitted,
            final(self).finished == old(self).finished,
            final(self).cancelled == old(self).cancelled,
            final(self).parent_registered == old(self).parent_registered,
            final(self).parent_wakes == old(self).parent_wakes,
    {
        let mut nd = self.nodes[node];
        let old_state = nd.state;
        proof {
            lemma_dec(old_state);
        }
        nd.state = old_state - 1;
        if (old_state & MAX_REFS) == 1 {
            if nd.computation.is_some() {
                // the contract excludes a last release with the payload in
                // place; the guarded halt is proved unreachable
                proof {
                    assert(false);
                }
                abort();
            }
            nd.freed = true;
        }
        self.nodes.set(node, nd);
    }

    /// The consumer is done with a node whose computation has completed,
    /// failed, or been cancelled: block any further enqueue by setting the
    /// QUEUED flag, drop the computation, unlink the node from the owner set,
    /// and — unless the node still sits in the readiness queue, which then
    /// keeps the borrowed reference until the consumer revisits the stale
    /// entry — drop the owner set's reference.
    pub(crate) fn release_node(&mut self, node: usize, Ghost(k): Ghost<int>)
        requires
            old(self).arena_ok(),
            old(self).owner_links_ok(),
            old(self).owner_comp_ok(),
            old(self).chain_ok(),
            old(self).flags_ok(),
            old(self).counts_ok(),
            0 <= k < old(self).owner@.len(),
            old(self).owner@[k] == node,
        ensures
            final(self).arena_ok(),
            final(self).owner_links_ok(),
            final(self).owner_comp_ok(),
            final(self).chain_ok(),
            final(self).flags_ok(),
            final(self).counts_ok(),
            final(self).owner@ == old(self).owner@.remove(k),
            final(self).nodes@.len() == old(self).nodes@.len(),
            final(self).node_at(node).computation.is_none(),
            is_queued(final(self).node_at(node).state),
            final(self).node_at(node).handles == old(self).node_at(node).handles,
            final(self).node_at(node).freed == (!is_queued(old(self).node_at(node).state)
                && old(self).node_at(node).handles@ == 0),
            forall|m: usize|
                0 < m < old(self).nodes@.len() && m != node ==> #[trigger] final(self).node_at(
                    m,
                ).computation == old(self).node_at(m).computation && final(self).node_at(m).state
                    == old(self).node_at(m).state && final(self).node_at(m).freed == old(
                    self,
                ).node_at(m).freed && final(self).node_at(m).handles == old(self).node_at(m).handles,
            forall|m: usize|
                0 < m < old(self).nodes@.len() && m != node && !old(self).in_owner(m)
                    ==> #[trigger] final(self).nodes@[m as int] == old(self).nodes@[m as int],
            final(self).len == old(self).len,
            final(self).head_readiness == old(self).head_readiness,
            final(self).tail_readiness == old(self).tail_readiness,
            final(self).pending == old(self).pending,
            final(self).chain == old(self).chain,
            final(self).collection_alive == old(self).collection_alive,
            final(self).inner_ref_count == old(self).inner_ref_count,
            final(self).inner_alive == old(self).inner_alive,
            final(self).inner_handles == old(self).inner_handles,
            final(self).live_out@ == old(self).live_out@.remove(
                outcome_at(old(self).nodes@, node),
            ),
            final(self).submitted == old(self).submitted,
            final(self).finished == old(self).finished,
            final(self).cancelled == old(self).cancelled,
            final(self).parent_registered == old(self).parent_registered,
            final(self).parent_wakes == old(self).parent_wakes,
            old(self).live_out_ok() ==> final(self).live_out_ok(),
    {
        proof {
            assert(old(self).owner_entry_ok(k));
            assert(old(self).in_owner(node)) by {
                assert(old(self).owner@[k] == node);
            }
            assert(old(self).node_at(node) == old(self).node_at(node));
        }
        let mut nd = self.nodes[node];
        let prev_state = nd.state;
        proof {
            lemma_set_queued(prev_state);
        }
        nd.state = prev_state | QUEUED;
        nd.computation = None;
        self.nodes.set(node, nd);
        proof {
            self.live_out@ = self.live_out@.remove(outcome_at(old(self).nodes@, node));
            assert forall|i: int| 0 <= i < self.owner@.len() implies self.owner_entry_ok(i) by {
                assert(old(self).owner_entry_ok(i));
            }
            assert(self.owner_links_ok());
            assert(self.arena_ok());
        }
        self.unlink(node, Ghost(k));
        let ghost mid = *self;
        let queued_before = (prev_state & QUEUED) == QUEUED;
        if !queued_before {
            proof {
                assert(refs_of(self.node_at(node).state) == refs_of(prev_state));
                assert(old(self).base_ref(node) == 1);
                assert(refs_of(prev_state) as nat == 1 + old(self).node_at(node).handles@);
            }
            self.release(node);
        }
        proof {
            self.lemma_release_node_exit(*old(self), mid, node, k, queued_before);
            let o = old(self).owner@;
            let out = outcome_at(old(self).nodes@, node);
            if old(self).live_out_ok() {
                crate::seqs::lemma_outcomes_remove(old(self).nodes@, o, k);
                assert(old(self).live_out@ == outcomes_of(old(self).nodes@, o.remove(k)).insert(
                    out,
                ));
                assert(outcomes_of(old(self).nodes@, o.remove(k)).insert(out).remove(out)
                    =~= outcomes_of(old(self).nodes@, o.remove(k)));
                o.remove_ensures(k);
                assert forall|i: int|
                    0 <= i < o.remove(k).len() implies #[trigger] o.remove(k)[i] < old(
                    self,
                ).nodes@.len() && o.remove(k)[i] < self.nodes@.len()
                    && self.nodes@[o.remove(k)[i] as int].computation == old(self).nodes@[o.remove(
                    k,
                )[i] as int].computation by {
                    let ii: int = if i < k {
                        i
                    } else {
                        i + 1
                    };
                    assert(o.remove(k)[i] == o[ii]);
                    assert(old(self).owner_entry_ok(ii));
                    assert(o[ii] != node);
                }
                crate::seqs::lemma_outcomes_frame(old(self).nodes@, self.nodes@, o.remove(k));
                assert(self.live_out_ok());
            }
            assert forall|m: usize|
                0 < m < old(self).nodes@.len() && m != node && !old(self).in_owner(m)
                    implies #[trigger] self.nodes@[m as int] == old(self).nodes@[m as int] by {
                assert(mid.nodes@[m as int] == mid.nodes@[m as int]);
                assert(self.nodes@[m as int] == mid.nodes@[m as int]);
            }
        }
    }

    /// After the three steps of the consumer's release — flag claimed and
    /// payload dropped (turning `pre` into `mid` up to the owner links),
    /// node unlinked, and the owner reference dropped unless the readiness
    /// queue still borrows it — every invariant component holds again.
    proof fn lemma_release_node_exit(
        &self,
        pre: FuturesUnordered,
        mid: FuturesUnordered,
        node: usize,
        k: int,
        queued_before: bool,
    )
        requires
            pre.arena_ok(),
            pre.owner_links_ok(),
            pre.owner_comp_ok(),
            pre.chain_ok(),
            pre.flags_ok(),
            pre.counts_ok(),
            0 <= k < pre.owner@.len(),
            pre.owner@[k] == node,
            queued_before == is_queued(pre.node_at(node).state),
            mid.owner@ == pre.owner@.remove(k),
            mid.owner_links_ok(),
            mid.nodes@.len() == pre.nodes@.len(),
            forall|m: int|
                0 <= m < pre.nodes@.len() && m != node ==> same_but_owner_links(
                    pre.nodes@[m],
                    #[trigger] mid.nodes@[m],
                ),
            forall|m: int|
                0 <= m < pre.nodes@.len() && m != node && !pre.owner@.contains(m as usize)
                    ==> #[trigger] mid.nodes@[m] == pre.nodes@[m],
            mid.node_at(node).computation.is_none(),
            mid.node_at(node).state == (pre.node_at(node).state | QUEUED),
            mid.node_at(node).next_all == NIL,
            mid.node_at(node).prev_all == NIL,
            mid.node_at(node).next_readiness == pre.node_at(node).next_readiness,
            mid.node_at(node).freed == pre.node_at(node).freed,
            mid.node_at(node).handles == pre.node_at(node).handles,
            mid.head_readiness == pre.head_readiness,
            mid.tail_readiness == pre.tail_readiness,
            mid.pending == pre.pending,
            mid.chain == pre.chain,
            mid.collection_alive == pre.collection_alive,
            queued_before ==> *self == mid,
            !queued_before ==> {
                &&& self.nodes@.len() == mid.nodes@.len()
                &&& (forall|i: int|
                    0 <= i < mid.nodes@.len() && i != node ==> #[trigger] self.nodes@[i]
                        == mid.nodes@[i])
                &&& refs_of(self.node_at(node).state) == refs_of(mid.node_at(node).state) - 1
                &&& refs_of(mid.node_at(node).state) >= 1
                &&& is_queued(self.node_at(node).state) == is_queued(mid.node_at(node).state)
                &&& self.node_at(node).computation == mid.node_at(node).computation
                &&& self.node_at(node).handles == mid.node_at(node).handles
                &&& self.node_at(node).next_all == mid.node_at(node).next_all
                &&& self.node_at(node).prev_all == mid.node_at(node).prev_all
                &&& self.node_at(node).next_readiness == mid.node_at(node).next_readiness
                &&& self.node_at(node).freed == (refs_of(mid.node_at(node).state) == 1)
                &&& self.head_all == mid.head_all
                &&& self.owner == mid.owner
                &&& self.chain == mid.chain
                &&& self.pending == mid.pending
                &&& self.head_readiness == mid.head_readiness
                &&& self.tail_readiness == mid.tail_readiness
                &&& self.collection_alive == mid.collection_alive
            },
        ensures
            self.arena_ok(),
            self.owner_links_ok(),
            self.owner_comp_ok(),
            self.chain_ok(),
            self.flags_ok(),
            self.counts_ok(),
            self.node_at(node).freed == (!queued_before && pre.node_at(node).handles@ == 0),
    {
        lemma_set_queued(pre.node_at(node).state);
        assert(pre.owner_entry_ok(k));
        assert(0 < node < pre.nodes@.len());
        assert(pre.node_at(node) == pre.node_at(node));
        assert(pre.in_owner(node)) by {
            assert(pre.owner@[k] == node);
        }
        assert(pre.base_ref(node) == 1);
        assert(refs_of(pre.node_at(node).state) as nat == 1 + pre.node_at(node).handles@);
        let o = pre.owner@;
        let on = mid.owner@;
        o.remove_ensures(k);
        crate::seqs::lemma_remove_contains(o, k);
        // the stub is untouched
        assert(same_but_owner_links(pre.nodes@[0], mid.nodes@[0]));
        assert(self.node_at(0) == mid.node_at(0));
        assert(self.arena_ok());
        // owner list: already well formed at mid; only `node`, not a member,
        // changed afterwards
        assert forall|i: int| 0 <= i < on.len() implies self.owner_entry_ok(i) by {
            assert(mid.owner_entry_ok(i));
            assert(on[i] != node) by {
                assert(on.contains(on[i]));
            }
            assert(self.nodes@[on[i] as int] == mid.nodes@[on[i] as int]);
            if i > 0 {
                assert(on[i - 1] != node) by {
                    assert(on.contains(on[i - 1]));
                }
            }
        }
        assert(self.owner_links_ok());
        assert forall|i: int|
            0 <= i < on.len() implies self.node_at(#[trigger] on[i]).computation.is_some() by {
            assert(mid.owner_entry_ok(i));
            assert(0 < on[i] < mid.nodes@.len());
            assert(on[i] != node) by {
                assert(on.contains(on[i]));
            }
            let ii: int = if i < k {
                i
            } else {
                i + 1
            };
            assert(on[i] == o[ii]);
            assert(pre.node_at(o[ii]).computation.is_some());
            assert(same_but_owner_links(pre.nodes@[on[i] as int], mid.nodes@[on[i] as int]));
            assert(self.nodes@[on[i] as int] == mid.nodes@[on[i] as int]);
        }
        assert forall|m: usize|
            0 < m < self.nodes@.len() && !self.node_at(m).freed && !self.in_owner(m) implies {
            &&& #[trigger] self.node_at(m).computation.is_none()
            &&& self.node_at(m).next_all == NIL
            &&& self.node_at(m).prev_all == NIL
        } by {
            if m != node {
                assert(same_but_owner_links(pre.nodes@[m as int], mid.nodes@[m as int]));
                assert(self.nodes@[m as int] == mid.nodes@[m as int]);
                assert(pre.node_at(m) == pre.node_at(m));
                assert(self.node_at(m).freed == pre.node_at(m).freed);
                if pre.in_owner(m) {
                    let j = crate::seqs::lemma_contains_index(o, m);
                    assert(pre.owner_entry_ok(j));
                    assert(j != k);
                    assert(on.contains(m)) by {
                        assert(on[if j < k {
                            j
                        } else {
                            j - 1
                        }] == m);
                    }
                    assert(false);
                } else {
                    assert(mid.nodes@[m as int] == pre.nodes@[m as int]);
                    assert(pre.node_at(m).computation.is_none());
                    assert(pre.node_at(m).next_all == NIL);
                    assert(pre.node_at(m).prev_all == NIL);
                    assert(self.node_at(m).computation == pre.node_at(m).computation);
                    assert(self.node_at(m).next_all == pre.node_at(m).next_all);
                    assert(self.node_at(m).prev_all == pre.node_at(m).prev_all);
                }
            }
        }
        assert(self.owner_comp_ok());
        // the readiness chain and flags
        let c = pre.chain@;
        assert(!queued_before ==> !pre.in_chain(node)) by {
            if !queued_before && pre.in_chain(node) {
                let j = crate::seqs::lemma_contains_index(c, node);
                assert(is_queued(pre.node_at(#[trigger] pre.chain@[j]).state));
            }
        }
        assert forall|i: int| 0 <= i < self.chain@.len() implies self.chain_entry_ok(i) by {
            assert(pre.chain_entry_ok(i));
            if c[i] == node {
                assert(c.contains(node));
                assert(queued_before);
            } else {
                assert(same_but_owner_links(pre.nodes@[c[i] as int], mid.nodes@[c[i] as int]));
                assert(self.nodes@[c[i] as int] == mid.nodes@[c[i] as int]);
            }
        }
        match pre.pending {
            Some(pe) => {
                assert(is_queued(pre.node_at(pe.node).state));
                if pe.node != node {
                    assert(same_but_owner_links(pre.nodes@[pe.node as int], mid.nodes@[pe.node as int]));
                    assert(self.nodes@[pe.node as int] == mid.nodes@[pe.node as int]);
                }
            },
            None => {},
        }
        assert(self.chain_ok());
        assert forall|i: int| 0 <= i < self.chain@.len() implies is_queued(
            self.node_at(#[trigger] self.chain@[i]).state,
        ) by {
            assert(is_queued(pre.node_at(pre.chain@[i]).state));
            assert(pre.chain_entry_ok(i));
            if c[i] != node {
                assert(same_but_owner_links(pre.nodes@[c[i] as int], mid.nodes@[c[i] as int]));
                assert(self.nodes@[c[i] as int] == mid.nodes@[c[i] as int]);
            } else {
                assert(is_queued(mid.node_at(node).state));
            }
        }
        assert forall|m: usize|
            0 < m < self.nodes@.len() && !self.node_at(m).freed && self.node_at(
                m,
            ).computation.is_none() implies is_queued(#[trigger] self.node_at(m).state) by {
            if m != node {
                assert(pre.node_at(m) == pre.node_at(m));
                assert(same_but_owner_links(pre.nodes@[m as int], mid.nodes@[m as int]));
                assert(self.nodes@[m as int] == mid.nodes@[m as int]);
                assert(self.node_at(m).computation == pre.node_at(m).computation);
                assert(self.node_at(m).freed == pre.node_at(m).freed);
                assert(is_queued(pre.node_at(m).state));
                assert(self.node_at(m).state == pre.node_at(m).state);
            } else {
                assert(is_queued(mid.node_at(node).state));
                assert(is_queued(self.node_at(node).state));
            }
        }
        assert forall|m: usize|
            0 < m < self.nodes@.len() && !self.node_at(m).freed && self.node_at(
                m,
            ).computation.is_some() && is_queued(self.node_at(m).state) implies self.in_ready(
            m,
        ) by {
            assert(m != node);
            assert(pre.node_at(m) == pre.node_at(m));
            assert(same_but_owner_links(pre.nodes@[m as int], mid.nodes@[m as int]));
            assert(self.nodes@[m as int] == mid.nodes@[m as int]);
            assert(pre.in_ready(m));
            assert(self.in_chain(m) == pre.in_chain(m));
        }
        assert(self.flags_ok());
        // reference counts
        assert forall|m: usize| 0 < m < self.nodes@.len() && m != node implies {
            &&& (!self.node_at(m).freed ==> self.node_at(m).refs() as nat == self.base_ref(m)
                + self.node_at(m).handles@ && self.node_at(m).refs() >= 1)
            &&& (self.node_at(m).freed ==> self.node_at(m).handles@ == 0 && !self.in_owner(m)
                && !self.in_ready(m))
        } by {
            assert(pre.node_at(m) == pre.node_at(m));
            assert(same_but_owner_links(pre.nodes@[m as int], mid.nodes@[m as int]));
            assert(self.nodes@[m as int] == mid.nodes@[m as int]);
            assert(self.node_at(m).state == pre.node_at(m).state);
            assert(self.node_at(m).freed == pre.node_at(m).freed);
            assert(self.node_at(m).handles == pre.node_at(m).handles);
            assert(self.in_owner(m) == pre.in_owner(m)) by {
                if on.contains(m) {
                    let j = crate::seqs::lemma_contains_index(on, m);
                    assert(o[if j < k { j } else { j + 1 }] == m);
                } else if o.contains(m) {
                    let j = crate::seqs::lemma_contains_index(o, m);
                    assert(j != k);
                    assert(on[if j < k { j } else { j - 1 }] == m);
                }
            }
            assert(self.in_chain(m) == pre.in_chain(m));
            assert(self.in_ready(m) == pre.in_ready(m));
            assert(self.base_ref(m) == pre.base_ref(m));
        }
        assert(!self.in_owner(node)) by {
            if on.contains(node) {
                let j = crate::seqs::lemma_contains_index(on, node);
            }
        }
        if queued_before {
            assert(pre.in_ready(node));
            assert(self.in_chain(node) == pre.in_chain(node));
            assert(self.in_ready(node));
            assert(self.base_ref(node) == 1);
            assert(refs_of(self.node_at(node).state) == refs_of(pre.node_at(node).state));
            assert(!self.node_at(node).freed);
        } else {
            assert(!pre.in_ready(node));
            assert(self.in_chain(node) == pre.in_chain(node));
            assert(!self.in_ready(node));
            assert(self.base_ref(node) == 0);
            assert(refs_of(self.node_at(node).state) as nat == pre.node_at(node).handles@);
        }
        assert(self.counts_ok());
    }

    /// One notification step on node `id`, from whichever thread: claim the
    /// QUEUED flag; whoever flips it from clear to set — and nobody else —
    /// enqueues the node and signals the parent task. A notification for a
    /// node that is already queued, or already released, changes nothing.
    pub(crate) fn notify_step(&mut self, id: usize)
        requires
            old(self).wf(),
            old(self).pending.is_none(),
            0 < id < old(self).nodes@.len(),
            !old(self).node_at(id).freed,
        ensures
            final(self).wf(),
            final(self).pending.is_none(),
            final(self).collection_alive == old(self).collection_alive,
            final(self).parent_registered == old(self).parent_registered,
            final(self).nodes@.len() == old(self).nodes@.len(),
            final(self).len == old(self).len,
            final(self).owner == old(self).owner,
            final(self).inner_ref_count == old(self).inner_ref_count,
            final(self).inner_alive == old(self).inner_alive,
            final(self).inner_handles == old(self).inner_handles,
            final(self).live_out == old(self).live_out,
            final(self).submitted == old(self).submitted,
            final(self).finished == old(self).finished,
            final(self).cancelled == old(self).cancelled,
            forall|m: usize|
                m < old(self).nodes@.len() ==> #[trigger] final(self).node_at(m).computation == old(
                    self,
                ).node_at(m).computation && final(self).node_at(m).freed == old(self).node_at(
                    m,
                ).freed && final(self).node_at(m).handles == old(self).node_at(m).handles,
            is_queued(old(self).node_at(id).state) ==> *final(self) == *old(self),
            !is_queued(old(self).node_at(id).state) ==> {
                &&& final(self).chain@ == old(self).chain@.push(id)
                &&& final(self).in_ready(id)
                &&& is_queued(final(self).node_at(id).state)
                &&& refs_of(final(self).node_at(id).state) == refs_of(old(self).node_at(id).state)
                &&& final(self).parent_wakes == bumped(old(self).parent_wakes)
                &&& (forall|m: usize|
                    m < old(self).nodes@.len() && m != id ==> #[trigger] final(self).node_at(
                        m,
                    ).state == old(self).node_at(m).state)
            },
    {
        proof {
            assert(old(self).node_at(id) == old(self).node_at(id));
        }
        let mut nd = self.nodes[id];
        let prev = nd.state;
        if (prev & QUEUED) != QUEUED {
            proof {
                lemma_set_queued(prev);
                // a clear flag means the computation is still there, so the
                // node is in the owner set, and it is not queued anywhere
                assert(old(self).node_at(id).computation.is_some());
                assert(old(self).in_owner(id)) by {
                    if !old(self).in_owner(id) {
                        assert(old(self).node_at(id).computation.is_none());
                    }
                }
                assert(!old(self).in_chain(id)) by {
                    if old(self).in_chain(id) {
                        let j = crate::seqs::lemma_contains_index(old(self).chain@, id);
                        assert(is_queued(
                            old(self).node_at(#[trigger] old(self).chain@[j]).state,
                        ));
                    }
                }
            }
            self.parent_wakes = bump(self.parent_wakes);
            nd.state = prev | QUEUED;
            self.nodes.set(id, nd);
            let ghost mid = *self;
            proof {
                assert forall|i: int| 0 <= i < self.chain@.len() implies self.chain_entry_ok(
                    i,
                ) by {
                    assert(old(self).chain_entry_ok(i));
                    assert(old(self).chain@[i] != id);
                }
                assert(self.chain_ok());
            }
            self.enqueue(id);
            proof {
                self.lemma_notify_exit(*old(self), mid, id);
            }
        }
    }

    /// After a notification claimed the flag (`pre` to `mid`: one state word
    /// set) and enqueued the node, the whole invariant holds again.
    proof fn lemma_notify_exit(&self, pre: FuturesUnordered, mid: FuturesUnordered, id: usize)
        requires
            pre.wf(),
            pre.pending.is_none(),
            0 < id < pre.nodes@.len(),
            !pre.node_at(id).freed,
            !is_queued(pre.node_at(id).state),
            pre.in_owner(id),
            !pre.in_chain(id),
            pre.node_at(id).computation.is_some(),
            mid.nodes@.len() == pre.nodes@.len(),
            forall|m: int|
                0 <= m < pre.nodes@.len() && m != id ==> #[trigger] mid.nodes@[m] == pre.nodes@[m],
            mid.node_at(id).state == (pre.node_at(id).state | QUEUED),
            mid.node_at(id).computation == pre.node_at(id).computation,
            mid.node_at(id).freed == pre.node_at(id).freed,
            mid.node_at(id).handles == pre.node_at(id).handles,
            mid.node_at(id).next_all == pre.node_at(id).next_all,
            mid.node_at(id).prev_all == pre.node_at(id).prev_all,
            mid.owner == pre.owner,
            mid.chain == pre.chain,
            mid.pending == pre.pending,
            mid.head_all == pre.head_all,
            mid.len == pre.len,
            mid.collection_alive == pre.collection_alive,
            mid.inner_ref_count == pre.inner_ref_count,
            mid.inner_alive == pre.inner_alive,
            mid.inner_handles == pre.inner_handles,
            mid.live_out == pre.live_out,
            mid.submitted == pre.submitted,
            mid.finished == pre.finished,
            mid.cancelled == pre.cancelled,
            self.chain@ == mid.chain@.push(id),
            self.chain_ok(),
            self.nodes@.len() == mid.nodes@.len(),
            forall|i: int|
                0 <= i < mid.nodes@.len() ==> same_but_ready_link(
                    mid.nodes@[i],
                    #[trigger] self.nodes@[i],
                ),
            self.pending == mid.pending,
            self.owner == mid.owner,
            self.head_all == mid.head_all,
            self.len == mid.len,
            self.collection_alive == mid.collection_alive,
            self.inner_ref_count == mid.inner_ref_count,
            self.inner_alive == mid.inner_alive,
            self.inner_handles == mid.inner_handles,
            self.live_out == mid.live_out,
            self.submitted == mid.submitted,
            self.finished == mid.finished,
            self.cancelled == mid.cancelled,
        ensures
            self.wf(),
            self.in_ready(id),
            is_queued(self.node_at(id).state),
            refs_of(self.node_at(id).state) == refs_of(pre.node_at(id).state),
    {
        lemma_set_queued(pre.node_at(id).state);
        let c = pre.chain@;
        let cn = self.chain@;
        crate::seqs::lemma_push_contains(c, id);
        assert(self.owner@ == pre.owner@);
        assert(self.in_owner(id)) by {
            assert(pre.owner@.contains(id));
        }
        assert(same_but_ready_link(mid.nodes@[id as int], self.nodes@[id as int]));
        assert(self.node_at(id).computation == pre.node_at(id).computation);
        assert(self.node_at(id).state == mid.node_at(id).state);
        assert(self.in_chain(id)) by {
            assert(cn[cn.len() - 1] == id);
        }
        assert(same_but_ready_link(mid.nodes@[0], self.nodes@[0]));
        assert(mid.nodes@[0] == pre.nodes@[0]);
        assert(self.arena_ok());
        assert forall|i: int| 0 <= i < self.owner@.len() implies self.owner_entry_ok(i) by {
            assert(pre.owner_entry_ok(i));
            let m = pre.owner@[i];
            assert(same_but_ready_link(mid.nodes@[m as int], self.nodes@[m as int]));
            if m != id {
                assert(mid.nodes@[m as int] == pre.nodes@[m as int]);
            }
        }
        assert(self.owner_links_ok());
        assert forall|i: int|
            0 <= i < self.owner@.len() implies self.node_at(
            #[trigger] self.owner@[i],
        ).computation.is_some() by {
            assert(pre.owner_entry_ok(i));
            let m = pre.owner@[i];
            assert(same_but_ready_link(mid.nodes@[m as int], self.nodes@[m as int]));
            if m != id {
                assert(mid.nodes@[m as int] == pre.nodes@[m as int]);
            }
        }
        assert forall|m: usize|
            0 < m < self.nodes@.len() && !self.node_at(m).freed && !self.in_owner(m) implies {
            &&& #[trigger] self.node_at(m).computation.is_none()
            &&& self.node_at(m).next_all == NIL
            &&& self.node_at(m).prev_all == NIL
        } by {
            assert(m != id) by {
                if m == id {
                    assert(self.in_owner(id));
                }
            }
            assert(pre.node_at(m) == pre.node_at(m));
            assert(same_but_ready_link(mid.nodes@[m as int], self.nodes@[m as int]));
            assert(mid.nodes@[m as int] == pre.nodes@[m as int]);
            assert(self.in_owner(m) == pre.in_owner(m));
            assert(self.node_at(m).freed == pre.node_at(m).freed);
            assert(pre.node_at(m).computation.is_none());
            assert(self.node_at(m).computation == pre.node_at(m).computation);
            assert(self.node_at(m).next_all == pre.node_at(m).next_all);
            assert(self.node_at(m).prev_all == pre.node_at(m).prev_all);
        }
        assert(self.owner_comp_ok());
        assert forall|i: int| 0 <= i < cn.len() implies is_queued(
            self.node_at(#[trigger] cn[i]).state,
        ) by {
            if i < c.len() {
                assert(is_queued(pre.node_at(pre.chain@[i]).state));
                assert(pre.chain_entry_ok(i));
                let m = cn[i];
                assert(same_but_ready_link(mid.nodes@[m as int], self.nodes@[m as int]));
                if m != id {
                    assert(mid.nodes@[m as int] == pre.nodes@[m as int]);
                }
            } else {
                assert(cn[i] == id);
                assert(same_but_ready_link(mid.nodes@[id as int], self.nodes@[id as int]));
            }
        }
        assert forall|m: usize|
            0 < m < self.nodes@.len() && !self.node_at(m).freed && self.node_at(
                m,
            ).computation.is_none() implies is_queued(#[trigger] self.node_at(m).state) by {
            assert(m != id) by {
                if m == id {
                    assert(self.node_at(id).computation.is_some());
                }
            }
            assert(pre.node_at(m) == pre.node_at(m));
            assert(same_but_ready_link(mid.nodes@[m as int], self.nodes@[m as int]));
            assert(mid.nodes@[m as int] == pre.nodes@[m as int]);
            assert(self.node_at(m).freed == pre.node_at(m).freed);
            assert(self.node_at(m).computation == pre.node_at(m).computation);
            assert(is_queued(pre.node_at(m).state));
            assert(self.node_at(m).state == pre.node_at(m).state);
        }
        assert forall|m: usize|
            0 < m < self.nodes@.len() && !self.node_at(m).freed && self.node_at(
                m,
            ).computation.is_some() && is_queued(self.node_at(m).state) implies self.in_ready(
            m,
        ) by {
            assert(same_but_ready_link(mid.nodes@[m as int], self.nodes@[m as int]));
            if m != id {
                assert(mid.nodes@[m as int] == pre.nodes@[m as int]);
                assert(pre.node_at(m) == pre.node_at(m));
                assert(pre.in_ready(m) ==> self.in_ready(m));
            }
        }
        assert(self.flags_ok());
        assert forall|m: usize| 0 < m < self.nodes@.len() implies {
            &&& (!self.node_at(m).freed ==> self.node_at(m).refs() as nat == self.base_ref(m)
                + self.node_at(m).handles@ && self.node_at(m).refs() >= 1)
            &&& (self.node_at(m).freed ==> self.node_at(m).handles@ == 0 && !self.in_owner(m)
                && !self.in_ready(m))
        } by {
            assert(pre.node_at(m) == pre.node_at(m));
            assert(same_but_ready_link(mid.nodes@[m as int], self.nodes@[m as int]));
            if m != id {
                assert(mid.nodes@[m as int] == pre.nodes@[m as int]);
                assert(self.node_at(m).state == pre.node_at(m).state);
                assert(self.node_at(m).freed == pre.node_at(m).freed);
                assert(self.node_at(m).handles == pre.node_at(m).handles);
                assert(self.in_owner(m) == pre.in_owner(m));
                assert(self.in_chain(m) == pre.in_chain(m));
                assert(self.base_ref(m) == pre.base_ref(m));
            } else {
                assert(self.in_owner(id));
                assert(self.base_ref(id) == 1 && pre.base_ref(id) == 1);
                assert(refs_of(self.node_at(id).state) == refs_of(pre.node_at(id).state));
                assert(self.node_at(id).handles == pre.node_at(id).handles);
                assert(!self.node_at(id).freed);
            }
        }
        assert(self.counts_ok());
        assert forall|i: int|
            0 <= i < self.owner@.len() implies #[trigger] self.owner@[i] < pre.nodes@.len()
                && self.owner@[i] < self.nodes@.len() && self.nodes@[self.owner@[i] as int].computation
                == pre.nodes@[self.owner@[i] as int].computation by {
            assert(pre.owner_entry_ok(i));
            let m = self.owner@[i];
            assert(same_but_ready_link(mid.nodes@[m as int], self.nodes@[m as int]));
            if m != id {
                assert(mid.nodes@[m as int] == pre.nodes@[m as int]);
            }
        }
        crate::seqs::lemma_outcomes_frame(pre.nodes@, self.nodes@, self.owner@);
        assert(self.live_out_ok());
        assert(self.sum_ok());
        assert(self.inner_ok());
        assert(self.collection_ok());
        assert(same_but_ready_link(mid.nodes@[id as int], self.nodes@[id as int]));
    }

    /// After the consumer advanced its tail past the first `k` chain
    /// entries — each of them the stub or the one popped node `n` — every
    /// queue-independent invariant still holds, the shorter chain is well
    /// formed, and the counts are intact everywhere but at `n`.
    proof fn lemma_dequeue_exit(&self, pre: FuturesUnordered, c: Seq<usize>, k: int, n: usize)
        requires
            pre.wf(),
            pre.collection_alive,
            c == pre.chain@,
            0 <= k < c.len(),
            forall|j: int| 0 <= j < k ==> c[j] == 0 || c[j] == n,
            n != 0 ==> k >= 1 && c[k - 1] == n,
            self.chain@ == c.skip(k),
            self.tail_readiness == c[k],
            self.nodes == pre.nodes,
            self.len == pre.len,
            self.head_all == pre.head_all,
            self.head_readiness == pre.head_readiness,
            self.pending == pre.pending,
            self.owner == pre.owner,
            self.collection_alive == pre.collection_alive,
            self.inner_ref_count == pre.inner_ref_count,
            self.inner_alive == pre.inner_alive,
            self.inner_handles == pre.inner_handles,
            self.live_out == pre.live_out,
            self.submitted == pre.submitted,
            self.finished == pre.finished,
            self.cancelled == pre.cancelled,
            self.parent_registered == pre.parent_registered,
            self.parent_wakes == pre.parent_wakes,
        ensures
            self.arena_ok(),
            self.owner_links_ok(),
            self.owner_comp_ok(),
            self.chain_ok(),
            self.flags_ok_except(n),
            self.inner_ok(),
            self.collection_ok(),
            self.live_out_ok(),
            self.sum_ok(),
            self.counts_ok_except(n),
            n == 0 ==> self.counts_ok() && self.flags_ok(),
            n != 0 ==> !self.in_chain(n) && !self.in_ready(n) && !self.node_at(n).freed
                && is_queued(self.node_at(n).state) && self.node_at(n).refs() as nat == 1
                + self.node_at(n).handles@ && 0 < n < self.nodes@.len() && pre.in_chain(n),
            forall|x: usize| x != 0 && x != n ==> self.in_chain(x) == pre.in_chain(x),
            self.chain@[0] == c[k],
            chain_work(self.nodes@, self.chain@) + node_work(self.nodes@, n) <= chain_work(
                pre.nodes@,
                pre.chain@,
            ),
    {
        assert forall|i: int|
            0 <= i < pre.nodes@.len() implies same_but_ready_link(
            pre.nodes@[i],
            #[trigger] self.nodes@[i],
        ) by {}
        lemma_ready_link_frame(pre, *self);
        let cc = self.chain@;
        assert(cc.len() == c.len() - k);
        assert forall|i: int| 0 <= i < cc.len() implies self.chain_entry_ok(i) by {
            assert(pre.chain_entry_ok(i + k));
            assert(cc[i] == c[i + k]);
        }
        assert forall|i: int, j: int| 0 <= i < j < cc.len() implies cc[i] != cc[j] by {
            assert(c[i + k] != c[j + k]);
        }
        assert(cc.last() == c.last());
        assert forall|x: usize| #[trigger] cc.contains(x) implies c.contains(x) by {
            let i = crate::seqs::lemma_contains_index(cc, x);
            assert(c[i + k] == x);
        }
        match pre.pending {
            Some(pe) => {
                assert(!cc.contains(pe.node));
            },
            None => {},
        }
        assert(self.chain_ok());
        assert forall|i: int| 0 <= i < cc.len() implies is_queued(
            self.node_at(#[trigger] cc[i]).state,
        ) by {
            assert(is_queued(pre.node_at(pre.chain@[i + k]).state));
        }
        assert forall|m: usize|
            0 < m < self.nodes@.len() && !self.node_at(m).freed && self.node_at(
                m,
            ).computation.is_none() implies is_queued(#[trigger] self.node_at(m).state) by {
            assert(pre.node_at(m) == pre.node_at(m));
            assert(self.node_at(m).freed == pre.node_at(m).freed);
            assert(self.node_at(m).computation == pre.node_at(m).computation);
            assert(is_queued(pre.node_at(m).state));
            assert(self.node_at(m).state == pre.node_at(m).state);
        }
        assert forall|m: usize|
            0 < m < self.nodes@.len() && m != n && !self.node_at(m).freed && self.node_at(
                m,
            ).computation.is_some() && is_queued(self.node_at(m).state) implies self.in_ready(
            m,
        ) by {
            assert(pre.node_at(m) == pre.node_at(m));
            assert(pre.in_ready(m));
            if pre.in_chain(m) {
                let j = crate::seqs::lemma_contains_index(c, m);
                assert(c[j] != 0 && c[j] != n);
                assert(j >= k);
                assert(cc[j - k] == m);
                assert(cc.contains(m));
            }
        }
        assert(self.flags_ok_except(n));
        if n == 0 {
            assert(self.flags_ok());
        }
        // membership is unchanged for every node other than the stub and `n`
        assert forall|m: usize| 0 < m < self.nodes@.len() && m != n implies {
            &&& (!self.node_at(m).freed ==> self.node_at(m).refs() as nat == self.base_ref(m)
                + self.node_at(m).handles@ && self.node_at(m).refs() >= 1)
            &&& (self.node_at(m).freed ==> self.node_at(m).handles@ == 0 && !self.in_owner(m)
                && !self.in_ready(m))
        } by {
            assert(pre.node_at(m) == pre.node_at(m));
            if cc.contains(m) {
                let i = crate::seqs::lemma_contains_index(cc, m);
                assert(c[i + k] == m);
                assert(c.contains(m));
            }
            if c.contains(m) {
                let j = crate::seqs::lemma_contains_index(c, m);
                assert(c[j] != 0 && c[j] != n);
                assert(j >= k);
                assert(cc[j - k] == m);
                assert(cc.contains(m));
            }
            assert(self.in_chain(m) == pre.in_chain(m));
            assert(self.in_owner(m) == pre.in_owner(m));
            assert(self.in_ready(m) == pre.in_ready(m));
            assert(self.base_ref(m) == pre.base_ref(m));
        }
        assert(self.counts_ok_except(n));
        assert forall|x: usize| x != 0 && x != n implies self.in_chain(x) == pre.in_chain(x) by {
            if cc.contains(x) {
                let i = crate::seqs::lemma_contains_index(cc, x);
                assert(c[i + k] == x);
                assert(c.contains(x));
            }
            if c.contains(x) {
                let j = crate::seqs::lemma_contains_index(c, x);
                assert(c[j] != 0 && c[j] != n);
                assert(j >= k);
                assert(cc[j - k] == x);
                assert(cc.contains(x));
            }
        }
        if n == 0 {
            assert(self.counts_ok());
        } else {
            assert(pre.chain_entry_ok(k - 1));
            assert(c.contains(n)) by {
                assert(c[k - 1] == n);
            }
            assert(is_queued(pre.node_at(n).state));
            if cc.contains(n) {
                let i = crate::seqs::lemma_contains_index(cc, n);
                assert(c[i + k] == n && c[k - 1] == n);
            }
            match pre.pending {
                Some(pe) => {
                    assert(pe.node != n) by {
                        assert(!c.contains(pe.node));
                    }
                },
                None => {},
            }
            assert(pre.in_ready(n));
            assert(pre.node_at(n) == pre.node_at(n));
            assert(pre.base_ref(n) == 1);
        }
        assert forall|i: int|
            0 <= i < cc.len() implies #[trigger] cc[i] < pre.nodes@.len() && cc[i]
                < self.nodes@.len() && pre.nodes@[cc[i] as int].computation
                == self.nodes@[cc[i] as int].computation by {
            assert(self.chain_entry_ok(i));
        }
        lemma_chain_work_frame(pre.nodes@, self.nodes@, cc);
        lemma_chain_work_skip(pre.nodes@, c, k);
        if n != 0 {
            assert(chain_work(pre.nodes@, cc) + node_work(pre.nodes@, c[k - 1]) <= chain_work(
                pre.nodes@,
                c,
            ));
            assert(node_work(self.nodes@, n) == node_work(pre.nodes@, n));
        } else {
            assert(node_work(self.nodes@, 0) == 0);
        }
    }

    /// The exit where the queue held exactly one real node: the stub has
    /// been re-enqueued as a separator and the consumer's tail rests on it,
    /// while the popped node `n` leaves with the queue's borrowed reference.
    proof fn lemma_dequeue_stub_exit(&self, pre: FuturesUnordered, c: Seq<usize>, n: usize)
        requires
            pre.wf(),
            pre.collection_alive,
            c == pre.chain@,
            n != 0,
            c[c.len() - 1] == n,
            forall|j: int| 0 <= j < c.len() - 1 ==> c[j] == 0,
            pre.pending.is_none(),
            self.chain@ == seq![0usize],
            self.tail_readiness == 0,
            self.head_readiness == 0,
            self.pending.is_none(),
            self.nodes@.len() == pre.nodes@.len(),
            forall|i: int|
                0 <= i < pre.nodes@.len() ==> same_but_ready_link(
                    pre.nodes@[i],
                    #[trigger] self.nodes@[i],
                ),
            self.node_at(0).next_readiness == NIL,
            self.len == pre.len,
            self.head_all == pre.head_all,
            self.owner == pre.owner,
            self.collection_alive == pre.collection_alive,
            self.inner_ref_count == pre.inner_ref_count,
            self.inner_alive == pre.inner_alive,
            self.inner_handles == pre.inner_handles,
            self.live_out == pre.live_out,
            self.submitted == pre.submitted,
            self.finished == pre.finished,
            self.cancelled == pre.cancelled,
            self.parent_registered == pre.parent_registered,
            self.parent_wakes == pre.parent_wakes,
        ensures
            self.arena_ok(),
            self.owner_links_ok(),
            self.owner_comp_ok(),
            self.chain_ok(),
            self.flags_ok_except(n),
            self.inner_ok(),
            self.collection_ok(),
            self.live_out_ok(),
            self.sum_ok(),
            self.counts_ok_except(n),
            !self.in_chain(n),
            !self.in_ready(n),
            !self.node_at(n).freed,
            is_queued(self.node_at(n).state),
            self.node_at(n).refs() as nat == 1 + self.node_at(n).handles@,
            0 < n < self.nodes@.len(),
            pre.in_chain(n),
            forall|x: usize| x != 0 && x != n ==> self.in_chain(x) == pre.in_chain(x),
            chain_work(self.nodes@, self.chain@) + node_work(self.nodes@, n) <= chain_work(
                pre.nodes@,
                pre.chain@,
            ),
    {
        lemma_ready_link_frame(pre, *self);
        lemma_initial_word();
        assert(same_but_ready_link(pre.nodes@[0], self.nodes@[0]));
        assert(self.chain_entry_ok(0));
        assert(self.chain_ok());
        assert forall|m: usize|
            0 < m < self.nodes@.len() && !self.node_at(m).freed && self.node_at(
                m,
            ).computation.is_none() implies is_queued(#[trigger] self.node_at(m).state) by {
            assert(pre.node_at(m) == pre.node_at(m));
            assert(same_but_ready_link(pre.nodes@[m as int], self.nodes@[m as int]));
            assert(self.node_at(m).freed == pre.node_at(m).freed);
            assert(self.node_at(m).computation == pre.node_at(m).computation);
            assert(is_queued(pre.node_at(m).state));
            assert(self.node_at(m).state == pre.node_at(m).state);
        }
        assert forall|m: usize|
            0 < m < self.nodes@.len() && m != n && !self.node_at(m).freed && self.node_at(
                m,
            ).computation.is_some() && is_queued(self.node_at(m).state) implies self.in_ready(
            m,
        ) by {
            assert(pre.node_at(m) == pre.node_at(m));
            assert(same_but_ready_link(pre.nodes@[m as int], self.nodes@[m as int]));
            assert(pre.in_ready(m));
            if pre.in_chain(m) {
                let j = crate::seqs::lemma_contains_index(c, m);
                assert(c[j] == 0 || c[j] == n);
                assert(false);
            }
        }
        assert(self.flags_ok_except(n));
        assert(pre.chain_entry_ok(c.len() - 1));
        assert(c.contains(n)) by {
            assert(c[c.len() - 1] == n);
        }
        assert forall|m: usize| 0 < m < self.nodes@.len() && m != n implies {
            &&& (!self.node_at(m).freed ==> self.node_at(m).refs() as nat == self.base_ref(m)
                + self.node_at(m).handles@ && self.node_at(m).refs() >= 1)
            &&& (self.node_at(m).freed ==> self.node_at(m).handles@ == 0 && !self.in_owner(m)
                && !self.in_ready(m))
        } by {
            assert(pre.node_at(m) == pre.node_at(m));
            assert(same_but_ready_link(pre.nodes@[m as int], self.nodes@[m as int]));
            if self.chain@.contains(m) {
                let i = crate::seqs::lemma_contains_index(self.chain@, m);
            }
            if c.contains(m) {
                let j = crate::seqs::lemma_contains_index(c, m);
                assert(c[j] == 0 || c[j] == n);
            }
            assert(!self.in_chain(m) && !pre.in_chain(m));
            assert(self.in_owner(m) == pre.in_owner(m));
            assert(self.in_ready(m) == pre.in_ready(m));
            assert(self.base_ref(m) == pre.base_ref(m));
            assert(self.node_at(m).state == pre.node_at(m).state);
            assert(self.node_at(m).freed == pre.node_at(m).freed);
            assert(self.node_at(m).handles == pre.node_at(m).handles);
        }
        assert(self.counts_ok_except(n));
        assert forall|x: usize| x != 0 && x != n implies self.in_chain(x) == pre.in_chain(x) by {
            if self.chain@.contains(x) {
                let i = crate::seqs::lemma_contains_index(self.chain@, x);
            }
            if c.contains(x) {
                let j = crate::seqs::lemma_contains_index(c, x);
                assert(c[j] == 0 || c[j] == n);
            }
        }
        if self.in_chain(n) {
            let i = crate::seqs::lemma_contains_index(self.chain@, n);
        }
        assert(is_queued(pre.node_at(n).state));
        assert(same_but_ready_link(pre.nodes@[n as int], self.nodes@[n as int]));
        assert(pre.in_ready(n));
        assert(pre.node_at(n) == pre.node_at(n));
        assert(pre.base_ref(n) == 1);
        assert(self.chain@.skip(1) =~= Seq::<usize>::empty());
        assert(chain_work(self.nodes@, Seq::<usize>::empty()) == 0);
        assert(chain_work(self.nodes@, self.chain@) == node_work(self.nodes@, 0) + chain_work(
            self.nodes@,
            self.chain@.skip(1),
        ));
        lemma_chain_work_skip(pre.nodes@, c, c.len() as int);
        assert(chain_work(pre.nodes@, c.skip(c.len() as int)) + node_work(
            pre.nodes@,
            c[c.len() - 1],
        ) <= chain_work(pre.nodes@, c));
        assert(same_but_ready_link(pre.nodes@[n as int], self.nodes@[n as int]));
        assert(node_work(self.nodes@, n) == node_work(pre.nodes@, n));
    }

    /// Destroys the collection: every owner-set node is released — its
    /// computation dropped, the node freed unless the readiness queue or an
    /// outstanding notifier handle still holds a reference — and then the
    /// collection's own reference to the shared head is dropped. Nodes that
    /// external handles keep alive outlive the collection and are freed when
    /// those handles are dropped.
    pub fn destroy(&mut self)
        requires
            old(self).wf(),
            old(self).collection_alive,
        ensures
            final(self).wf(),
            !final(self).collection_alive,
            final(self).len == 0,
            final(self).owner@ == Seq::<usize>::empty(),
            final(self).nodes@.len() == old(self).nodes@.len(),
            final(self).cancelled@ == old(self).cancelled@.add(old(self).live_out@),
            final(self).submitted == old(self).submitted,
            final(self).finished == old(self).finished,
            final(self).inner_handles == old(self).inner_handles,
            final(self).inner_ref_count == old(self).inner_ref_count - 1,
            final(self).inner_alive == (old(self).inner_ref_count > 1),
            final(self).pending == old(self).pending,
            final(self).chain == old(self).chain,
            final(self).tail_readiness == old(self).tail_readiness,
            final(self).head_readiness == old(self).head_readiness,
            forall|m: usize|
                0 < m < old(self).nodes@.len() ==> #[trigger] final(self).node_at(m).handles == old(
                    self,
                ).node_at(m).handles,
            forall|m: usize|
                0 < m < old(self).nodes@.len() && !old(self).in_owner(m)
                    ==> #[trigger] final(self).nodes@[m as int] == old(self).nodes@[m as int],
            forall|m: usize|
                old(self).in_owner(m) ==> #[trigger] final(self).node_at(m).computation.is_none()
                    && is_queued(final(self).node_at(m).state) && final(self).node_at(m).freed == (
                !is_queued(old(self).node_at(m).state) && old(self).node_at(m).handles@ == 0),
    {
        while self.head_all != usize::MAX
            invariant
                self.arena_ok(),
                self.owner_links_ok(),
                self.owner_comp_ok(),
                self.chain_ok(),
                self.flags_ok(),
                self.counts_ok(),
                self.inner_ok(),
                self.live_out_ok(),
                self.collection_alive,
                self.owner@.len() < self.nodes@.len(),
                self.nodes@.len() == old(self).nodes@.len(),
                self.pending == old(self).pending,
                self.inner_ref_count == old(self).inner_ref_count,
                self.inner_alive == old(self).inner_alive,
                self.inner_handles == old(self).inner_handles,
                self.submitted == old(self).submitted,
                self.finished == old(self).finished,
                self.cancelled@.add(self.live_out@) == old(self).cancelled@.add(
                    old(self).live_out@,
                ),
                self.submitted@ == self.finished@.add(self.cancelled@).add(self.live_out@),
                old(self).wf(),
                self.chain == old(self).chain,
                self.tail_readiness == old(self).tail_readiness,
                self.head_readiness == old(self).head_readiness,
                forall|m: usize|
                    0 < m < old(self).nodes@.len() ==> #[trigger] self.node_at(m).handles == old(
                        self,
                    ).node_at(m).handles,
                forall|m: usize|
                    0 < m < old(self).nodes@.len() && !old(self).in_owner(m) ==> #[trigger] self.nodes@[m as int]
                        == old(self).nodes@[m as int],
                forall|x: usize|
                    #![trigger self.owner@.contains(x)]
                    self.owner@.contains(x) ==> old(self).in_owner(x) && self.node_at(
                        x,
                    ).computation == old(self).node_at(x).computation && self.node_at(x).state
                        == old(self).node_at(x).state && self.node_at(x).freed == old(
                        self,
                    ).node_at(x).freed,
                forall|x: usize|
                    #![trigger old(self).node_at(x)]
                    0 < x < old(self).nodes@.len() && old(self).in_owner(x)
                        && !self.owner@.contains(x) ==> self.node_at(x).computation.is_none()
                        && is_queued(self.node_at(x).state) && self.node_at(x).freed == (
                    !is_queued(old(self).node_at(x).state) && old(self).node_at(x).handles@ == 0),
            decreases self.owner@.len(),
        {
            proof {
                if self.owner@.len() == 0 {
                    assert(self.head_all == NIL);
                }
                assert(self.owner_entry_ok(0));
            }
            let head = self.head_all;
            let ghost out = outcome_at(self.nodes@, head);
            let ghost cc = self.cancelled@;
            let ghost lv = self.live_out@;
            proof {
                assert(self.owner@[0] == head);
                assert(self.owner@.contains(head));
                crate::seqs::lemma_outcomes_remove(self.nodes@, self.owner@, 0);
                assert(lv.count(out) >= 1);
            }
            let ghost it = *self;
            proof {
                assert(it.in_owner(head)) by {
                    assert(it.owner@[0] == head);
                }
                assert(it.owner@.contains(head));
            }
            self.release_node(head, Ghost(0));
            let ghost rn = *self;
            proof {
                self.cancelled@ = self.cancelled@.insert(out);
                self.lemma_history_frame(rn);
                assert(cc.insert(out).add(lv.remove(out)) =~= cc.add(lv));
                assert(self.finished@.add(cc.insert(out)).add(lv.remove(out)) =~= self.finished@.add(
                    cc,
                ).add(lv));
                // the released head satisfies the per-node accounting; every
                // other node keeps its invariant clauses
                crate::seqs::lemma_remove_contains(it.owner@, 0);
                assert forall|m: usize|
                    0 < m < old(self).nodes@.len() && !old(self).in_owner(m) implies #[trigger] self.nodes@[m as int]
                        == old(self).nodes@[m as int] by {
                    assert(rn.nodes@[m as int] == rn.nodes@[m as int]);
                    assert(!it.in_owner(m)) by {
                        if it.owner@.contains(m) {
                            assert(old(self).in_owner(m));
                        }
                    }
                    assert(rn.nodes@[m as int] == it.nodes@[m as int]);
                }
                assert forall|x: usize|
                    #![trigger self.owner@.contains(x)]
                    self.owner@.contains(x) implies old(self).in_owner(x) && self.node_at(
                    x,
                ).computation == old(self).node_at(x).computation && self.node_at(x).state == old(
                    self,
                ).node_at(x).state && self.node_at(x).freed == old(self).node_at(x).freed by {
                    assert(it.owner@.contains(x) && x != head);
                    assert(0 < x < it.nodes@.len()) by {
                        let j = crate::seqs::lemma_contains_index(it.owner@, x);
                        assert(it.owner_entry_ok(j));
                    }
                    assert(rn.node_at(x).computation == it.node_at(x).computation
                        && rn.node_at(x).state == it.node_at(x).state && rn.node_at(x).freed
                        == it.node_at(x).freed);
                }
                assert forall|x: usize|
                    #![trigger old(self).node_at(x)]
                    0 < x < old(self).nodes@.len() && old(self).in_owner(x)
                        && !self.owner@.contains(x) implies self.node_at(x).computation.is_none()
                        && is_queued(self.node_at(x).state) && self.node_at(x).freed == (
                    !is_queued(old(self).node_at(x).state) && old(self).node_at(
                        x,
                    ).handles@ == 0) by {
                    if x == head {
                        assert(it.node_at(head).state == old(self).node_at(head).state);
                        assert(it.node_at(head).handles == old(self).node_at(head).handles);
                    } else {
                        if it.owner@.contains(x) {
                            assert(self.owner@.contains(x));
                            assert(false);
                        }
                        assert(it.node_at(x) == it.node_at(x));
                        assert(rn.node_at(x).computation == it.node_at(x).computation
                            && rn.node_at(x).state == it.node_at(x).state && rn.node_at(x).freed
                            == it.node_at(x).freed);
                    }
                }
            }
        }
        proof {
            if self.owner@.len() > 0 {
                assert(self.owner_entry_ok(0));
            }
            assert(self.owner@ =~= Seq::<usize>::empty());
        }
        let ghost fin = *self;
        self.len = 0;
        self.collection_alive = false;
        let old_count = self.inner_ref_count;
        self.inner_ref_count = old_count - 1;
        if old_count == 1 {
            self.inner_alive = false;
        }
        let mut stub_node = self.nodes[0];
        stub_node.freed = true;
        self.nodes.set(0, stub_node);
        proof {
            self.lemma_destroy_exit(fin);
            assert(outcomes_of(self.nodes@, self.owner@) == Multiset::<Outcome>::empty());
            assert(self.cancelled@.add(Multiset::<Outcome>::empty()) =~= self.cancelled@);
            assert(old(self).cancelled@.add(old(self).live_out@) =~= self.cancelled@);
            assert(self.finished@.add(self.cancelled@).add(self.live_out@) =~= self.submitted@);
            assert(self.sum_ok());
            assert(self.wf());
            assert forall|m: usize|
                0 < m < old(self).nodes@.len() implies #[trigger] self.node_at(m).handles == old(
                self,
            ).node_at(m).handles by {
                assert(fin.node_at(m) == fin.node_at(m));
                assert(self.node_at(m) == fin.node_at(m));
            }
            assert forall|m: usize|
                0 < m < old(self).nodes@.len() && !old(self).in_owner(m) implies #[trigger] self.nodes@[m as int]
                    == old(self).nodes@[m as int] by {
                assert(fin.nodes@[m as int] == fin.nodes@[m as int]);
                assert(self.nodes@[m as int] == fin.nodes@[m as int]);
            }
            assert forall|m: usize|
                old(self).in_owner(m) implies #[trigger] self.node_at(m).computation.is_none()
                    && is_queued(self.node_at(m).state) && self.node_at(m).freed == (!is_queued(
                old(self).node_at(m).state,
            ) && old(self).node_at(m).handles@ == 0) by {
                assert(old(self).node_at(m) == old(self).node_at(m));
                assert(0 < m < old(self).nodes@.len()) by {
                    let j = crate::seqs::lemma_contains_index(old(self).owner@, m);
                    assert(old(self).owner_entry_ok(j));
                }
                assert(!fin.owner@.contains(m));
                assert(self.node_at(m) == fin.node_at(m));
            }
        }
    }

    /// A change of the ghost history tallies alone touches no structure:
    /// every component but the conservation sum carries over.
    proof fn lemma_history_frame(&self, pre: FuturesUnordered)
        requires
            pre.arena_ok(),
            pre.owner_links_ok(),
            pre.owner_comp_ok(),
            pre.chain_ok(),
            pre.flags_ok(),
            pre.counts_ok(),
            pre.inner_ok(),
            self.nodes == pre.nodes,
            self.len == pre.len,
            self.head_all == pre.head_all,
            self.head_readiness == pre.head_readiness,
            self.tail_readiness == pre.tail_readiness,
            self.pending == pre.pending,
            self.inner_ref_count == pre.inner_ref_count,
            self.inner_alive == pre.inner_alive,
            self.collection_alive == pre.collection_alive,
            self.owner == pre.owner,
            self.chain == pre.chain,
            self.inner_handles == pre.inner_handles,
            self.live_out == pre.live_out,
        ensures
            self.arena_ok(),
            self.owner_links_ok(),
            self.owner_comp_ok(),
            self.chain_ok(),
            self.flags_ok(),
            self.counts_ok(),
            self.inner_ok(),
            pre.live_out_ok() ==> self.live_out_ok(),
    {
        assert(self.node_at(0) == pre.node_at(0));
        assert forall|i: int| 0 <= i < self.owner@.len() implies self.owner_entry_ok(i) by {
            assert(pre.owner_entry_ok(i));
            assert(self.node_at(self.owner@[i]) == pre.node_at(pre.owner@[i]));
        }
        assert forall|i: int|
            0 <= i < self.owner@.len() implies self.node_at(
            #[trigger] self.owner@[i],
        ).computation.is_some() by {
            assert(pre.owner_entry_ok(i));
            assert(pre.node_at(pre.owner@[i]).computation.is_some());
            assert(self.node_at(self.owner@[i]) == pre.node_at(pre.owner@[i]));
        }
        assert forall|m: usize|
            0 < m < self.nodes@.len() && !self.node_at(m).freed && !self.in_owner(m) implies {
            &&& #[trigger] self.node_at(m).computation.is_none()
            &&& self.node_at(m).next_all == NIL
            &&& self.node_at(m).prev_all == NIL
        } by {
            assert(pre.node_at(m) == pre.node_at(m));
            assert(self.node_at(m) == pre.node_at(m));
            assert(self.in_owner(m) == pre.in_owner(m));
        }
        assert forall|i: int| 0 <= i < self.chain@.len() implies self.chain_entry_ok(i) by {
            assert(pre.chain_entry_ok(i));
            assert(self.node_at(self.chain@[i]) == pre.node_at(pre.chain@[i]));
        }
        assert forall|i: int| 0 <= i < self.chain@.len() implies is_queued(
            self.node_at(#[trigger] self.chain@[i]).state,
        ) by {
            assert(pre.chain_entry_ok(i));
            assert(is_queued(pre.node_at(pre.chain@[i]).state));
            assert(self.node_at(self.chain@[i]) == pre.node_at(pre.chain@[i]));
        }
        assert forall|m: usize|
            0 < m < self.nodes@.len() && !self.node_at(m).freed && self.node_at(
                m,
            ).computation.is_none() implies is_queued(#[trigger] self.node_at(m).state) by {
            assert(pre.node_at(m) == pre.node_at(m));
            assert(self.node_at(m) == pre.node_at(m));
        }
        assert forall|m: usize|
            0 < m < self.nodes@.len() && !self.node_at(m).freed && self.node_at(
                m,
            ).computation.is_some() && is_queued(self.node_at(m).state) implies self.in_ready(
            m,
        ) by {
            assert(pre.node_at(m) == pre.node_at(m));
            assert(self.node_at(m) == pre.node_at(m));
            assert(pre.in_ready(m) == self.in_ready(m));
        }
        assert(self.flags_ok());
        assert forall|m: usize| 0 < m < self.nodes@.len() implies {
            &&& (!self.node_at(m).freed ==> self.node_at(m).refs() as nat == self.base_ref(m)
                + self.node_at(m).handles@ && self.node_at(m).refs() >= 1)
            &&& (self.node_at(m).freed ==> self.node_at(m).handles@ == 0 && !self.in_owner(m)
                && !self.in_ready(m))
        } by {
            assert(pre.node_at(m) == pre.node_at(m));
            assert(self.node_at(m) == pre.node_at(m));
            assert(self.in_owner(m) == pre.in_owner(m));
            assert(self.in_ready(m) == pre.in_ready(m));
            assert(self.base_ref(m) == pre.base_ref(m));
        }
        assert(self.counts_ok());
        if pre.live_out_ok() {
            assert(self.live_out@ == outcomes_of(self.nodes@, self.owner@));
        }
    }

    /// After the drain loop emptied the owner set and the finale marked the
    /// collection dead, dropped its shared-head reference and freed the
    /// stub, the invariant holds of the corpse.
    proof fn lemma_destroy_exit(&self, fin: FuturesUnordered)
        requires
            fin.arena_ok(),
            fin.owner_links_ok(),
            fin.owner_comp_ok(),
            fin.chain_ok(),
            fin.flags_ok(),
            fin.counts_ok(),
            fin.collection_alive,
            fin.owner@ == Seq::<usize>::empty(),
            fin.live_out_ok(),
            fin.live_out@ == Multiset::<Outcome>::empty(),
            self.nodes@.len() == fin.nodes@.len(),
            forall|m: int| 0 < m < fin.nodes@.len() ==> #[trigger] self.nodes@[m] == fin.nodes@[m],
            self.node_at(0) == (Node { freed: true, ..fin.node_at(0) }),
            self.len == 0,
            !self.collection_alive,
            self.inner_ref_count == fin.inner_ref_count - 1,
            fin.inner_ref_count >= 1,
            self.inner_alive == (fin.inner_ref_count > 1),
            self.inner_handles == fin.inner_handles,
            fin.inner_ref_count as nat == fin.inner_handles@ + 1,
            self.owner == fin.owner,
            self.chain == fin.chain,
            self.pending == fin.pending,
            self.head_all == fin.head_all,
            self.head_readiness == fin.head_readiness,
            self.tail_readiness == fin.tail_readiness,
            self.live_out == fin.live_out,
            self.submitted == fin.submitted,
            self.finished == fin.finished,
            self.cancelled == fin.cancelled,
        ensures
            self.arena_ok(),
            self.owner_links_ok(),
            self.owner_comp_ok(),
            self.chain_ok(),
            self.flags_ok(),
            self.counts_ok(),
            self.inner_ok(),
            self.collection_ok(),
            self.live_out_ok(),
    {
        assert(self.arena_ok());
        assert(self.owner@.len() == 0);
        assert forall|m: usize|
            0 < m < self.nodes@.len() && !self.node_at(m).freed && !self.in_owner(m) implies {
            &&& #[trigger] self.node_at(m).computation.is_none()
            &&& self.node_at(m).next_all == NIL
            &&& self.node_at(m).prev_all == NIL
        } by {
            assert(fin.node_at(m) == fin.node_at(m));
            assert(self.node_at(m) == fin.node_at(m));
            assert(self.in_owner(m) == fin.in_owner(m));
        }
        assert(self.owner_comp_ok());
        assert forall|i: int| 0 <= i < self.chain@.len() implies self.chain_entry_ok(i) by {
            assert(fin.chain_entry_ok(i));
            if self.chain@[i] != 0 {
                assert(self.node_at(self.chain@[i]) == fin.node_at(fin.chain@[i]));
            } else {
                assert(self.node_at(0).next_readiness == fin.node_at(0).next_readiness);
            }
        }
        match fin.pending {
            Some(pe) => {
                assert(self.node_at(pe.node) == fin.node_at(fin.pending.unwrap().node));
            },
            None => {},
        }
        assert(self.chain_ok());
        assert forall|i: int| 0 <= i < self.chain@.len() implies is_queued(
            self.node_at(#[trigger] self.chain@[i]).state,
        ) by {
            assert(fin.chain_entry_ok(i));
            assert(is_queued(fin.node_at(fin.chain@[i]).state));
            if self.chain@[i] != 0 {
                assert(self.node_at(self.chain@[i]) == fin.node_at(fin.chain@[i]));
            } else {
                assert(self.node_at(0).state == fin.node_at(0).state);
            }
        }
        assert forall|m: usize|
            0 < m < self.nodes@.len() && !self.node_at(m).freed && self.node_at(
                m,
            ).computation.is_none() implies is_queued(#[trigger] self.node_at(m).state) by {
            assert(fin.node_at(m) == fin.node_at(m));
            assert(self.node_at(m) == fin.node_at(m));
        }
        assert forall|m: usize|
            0 < m < self.nodes@.len() && !self.node_at(m).freed && self.node_at(
                m,
            ).computation.is_some() && is_queued(self.node_at(m).state) implies self.in_ready(
            m,
        ) by {
            assert(fin.node_at(m) == fin.node_at(m));
            assert(self.node_at(m) == fin.node_at(m));
            assert(fin.in_ready(m) == self.in_ready(m));
        }
        assert(self.flags_ok());
        assert forall|m: usize| 0 < m < self.nodes@.len() implies {
            &&& (!self.node_at(m).freed ==> self.node_at(m).refs() as nat == self.base_ref(m)
                + self.node_at(m).handles@ && self.node_at(m).refs() >= 1)
            &&& (self.node_at(m).freed ==> self.node_at(m).handles@ == 0 && !self.in_owner(m)
                && !self.in_ready(m))
        } by {
            assert(fin.node_at(m) == fin.node_at(m));
            assert(self.node_at(m) == fin.node_at(m));
            assert(self.in_owner(m) == fin.in_owner(m));
            assert(self.in_ready(m) == fin.in_ready(m));
            assert(self.base_ref(m) == fin.base_ref(m));
        }
        assert(self.counts_ok());
        assert(self.live_out@ =~= outcomes_of(self.nodes@, self.owner@));
        assert(self.inner_ok());
        assert(self.collection_ok());
    }

    /// The consumer step. Registers the ambient parent task, then drains the
    /// readiness queue: a stale entry gives its borrowed reference back, a
    /// live computation is polled with its QUEUED flag cleared first, so a
    /// notification arriving during the poll re-enqueues the node exactly
    /// once and the loop revisits it. The first completion ends the call; an
    /// empty queue reports exhaustion or pending work; an inconsistent queue
    /// makes the consumer wake itself once and yield rather than spin.
    ///
    /// The contract forces delivery: while no producer is mid-enqueue, a
    /// queued computation that is ready (or keeps re-arming itself) makes
    /// this call return a completion, the completion is always one a queued
    /// computation could produce, a not-ready report means the queue was
    /// drained to the stub with every queued computation advanced by one
    /// poll, and handle counts survive untouched. One restriction of the
    /// sequential model: a computation's own wake-during-poll is delivered
    /// only while no producer is caught mid-enqueue.
    #[verifier::rlimit(100)]
    pub fn poll(&mut self) -> (r: PollResult)
        requires
            old(self).wf(),
            old(self).collection_alive,
        ensures
            final(self).wf(),
            final(self).collection_alive,
            final(self).parent_registered,
            final(self).pending == old(self).pending,
            final(self).nodes@.len() == old(self).nodes@.len(),
            final(self).submitted == old(self).submitted,
            final(self).cancelled == old(self).cancelled,
            final(self).inner_handles == old(self).inner_handles,
            final(self).inner_ref_count == old(self).inner_ref_count,
            final(self).inner_alive == old(self).inner_alive,
            match r {
                PollResult::ReadyNone => old(self).len == 0 && final(self).len == 0
                    && final(self).finished == old(self).finished && final(self).owner == old(
                    self,
                ).owner,
                PollResult::NotReady => final(self).len == old(self).len && final(self).finished
                    == old(self).finished && final(self).owner == old(self).owner && (old(self).len
                    > 0 || old(self).pending.is_some()),
                PollResult::ReadySome(v) => old(self).len >= 1 && final(self).len == old(self).len
                    - 1 && final(self).finished@ == old(self).finished@.insert(Outcome::Value(v)),
                PollResult::Fault(e) => old(self).len >= 1 && final(self).len == old(self).len - 1
                    && final(self).finished@ == old(self).finished@.insert(Outcome::Fault(e)),
            },
            old(self).len == 0 && old(self).pending.is_none() ==> r == PollResult::ReadyNone,
            forall|m: usize|
                m < old(self).nodes@.len() ==> #[trigger] final(self).node_at(m).handles == old(
                    self,
                ).node_at(m).handles,
            old(self).delivers(r),
            old(self).pending.is_none() && old(self).some_deliverable() ==> (r matches
            PollResult::ReadySome(_) || r matches PollResult::Fault(_)),
            r == PollResult::ReadyNone ==> final(self).chain@ == seq![0usize]
                && final(self).parent_wakes == old(self).parent_wakes,
            r == PollResult::NotReady ==> final(self).parent_wakes == (if final(self).chain@
                == seq![0usize] {
                old(self).parent_wakes
            } else {
                bumped(old(self).parent_wakes)
            }),
            r == PollResult::NotReady && old(self).pending.is_none() ==> final(self).chain@
                == seq![0usize] && (forall|x: usize|
                #![trigger old(self).node_at(x)]
                0 < x < old(self).nodes@.len() && old(self).in_chain(x) ==> advanced_once(
                    old(self).node_at(x).computation,
                    final(self).node_at(x).computation,
                )),
    {
        let ghost pre0 = *self;
        self.parent_registered = true;
        proof {
            self.lemma_scalar_frame(pre0);
        }
        loop
            invariant
                old(self).wf(),
                self.wf(),
                self.collection_alive,
                self.parent_registered,
                self.pending == old(self).pending,
                self.nodes@.len() == old(self).nodes@.len(),
                self.len == old(self).len,
                self.owner == old(self).owner,
                self.submitted == old(self).submitted,
                self.finished == old(self).finished,
                self.cancelled == old(self).cancelled,
                self.inner_handles == old(self).inner_handles,
                self.inner_ref_count == old(self).inner_ref_count,
                self.inner_alive == old(self).inner_alive,
                forall|m: usize|
                    m < old(self).nodes@.len() ==> #[trigger] self.node_at(m).handles == old(
                        self,
                    ).node_at(m).handles,
                forall|x: usize|
                    #![trigger self.in_chain(x)]
                    x != 0 && x < self.nodes@.len() && self.in_chain(x) ==> old(self).in_chain(x)
                        && still_queued_evolution(
                        old(self).node_at(x).computation,
                        self.node_at(x).computation,
                    ),
                old(self).pending.is_none() ==> (forall|x: usize|
                    #![trigger self.node_at(x)]
                    0 < x < self.nodes@.len() && old(self).in_chain(x) && !self.in_chain(x)
                        ==> advanced_once(
                        old(self).node_at(x).computation,
                        self.node_at(x).computation,
                    )),
                old(self).pending.is_none() ==> (self.parent_wakes == old(self).parent_wakes
                    || self.some_deliverable()),
                old(self).pending.is_some() ==> self.parent_wakes == old(self).parent_wakes,
            decreases chain_work(self.nodes@, self.chain@),
        {
            let ghost it0 = *self;
            let d = self.dequeue();
            match d {
                Dequeue::Empty => {
                    proof {
                        // the chain is down to the stub: nothing deliverable
                        // remains, no wake was counted, and with no producer
                        // mid-flight every queued computation was advanced
                        assert(self.chain@ == seq![0usize]);
                        if self.some_deliverable() {
                            let w = choose|w: usize| self.deliverable_at(w);
                            let i = crate::seqs::lemma_contains_index(self.chain@, w);
                            assert(false);
                        }
                        if old(self).pending.is_none() && old(self).some_deliverable() {
                            let w = choose|w: usize| old(self).deliverable_at(w);
                            let j = crate::seqs::lemma_contains_index(old(self).chain@, w);
                            assert(old(self).chain_entry_ok(j));
                            if self.in_chain(w) {
                                let i = crate::seqs::lemma_contains_index(self.chain@, w);
                            }
                            assert(self.node_at(w) == self.node_at(w));
                            assert(advanced_once(
                                old(self).node_at(w).computation,
                                self.node_at(w).computation,
                            ));
                            assert(false);
                        }
                        if old(self).pending.is_none() {
                            assert forall|x: usize|
                                0 < x < old(self).nodes@.len() && old(self).in_chain(x)
                                    implies advanced_once(
                                old(self).node_at(x).computation,
                                self.node_at(x).computation,
                            ) by {
                                let j = crate::seqs::lemma_contains_index(old(self).chain@, x);
                                assert(old(self).chain_entry_ok(j));
                                if self.chain@.contains(x) {
                                    let i = crate::seqs::lemma_contains_index(self.chain@, x);
                                }
                                assert(self.node_at(x) == self.node_at(x));
                            }
                        }
                    }
                    if self.is_empty() {
                        return PollResult::ReadyNone;
                    } else {
                        return PollResult::NotReady;
                    }
                },
                Dequeue::Inconsistent => {
                    // a producer is mid-enqueue: wake ourselves through the
                    // task system and yield instead of spinning
                    let ghost mid = *self;
                    self.parent_wakes = bump(self.parent_wakes);
                    proof {
                        assert(mid.wf());
                        self.lemma_scalar_frame(mid);
                        assert(self.chain@[0] != 0);
                        assert(self.chain@ != seq![0usize]) by {
                            assert(seq![0usize][0] == 0usize);
                        }
                    }
                    return PollResult::NotReady;
                },
                Dequeue::Data(node) => {
                    let ghost dq = *self;
                    let nd = self.nodes[node];
                    if nd.computation.is_none() {
                        // a stale entry: its node already left the owner set,
                        // so both owner links are null; give the queue's
                        // borrowed reference back
                        proof {
                            assert(!self.in_owner(node)) by {
                                if self.in_owner(node) {
                                    let j = crate::seqs::lemma_contains_index(self.owner@, node);
                                    assert(self.node_at(
                                        #[trigger] self.owner@[j],
                                    ).computation.is_some());
                                }
                            }
                            assert(self.node_at(node).next_all == NIL);
                            assert(self.node_at(node).prev_all == NIL);
                        }
                        let ghost mid = *self;
                        self.release(node);
                        proof {
                            self.lemma_poll_stale_exit(it0, mid, node);
                            // the stale slot was empty before the call began
                            assert(dq.node_at(node).computation.is_none());
                            assert(it0.node_at(node).computation.is_none()) by {
                                assert(same_but_ready_link(
                                    it0.nodes@[node as int],
                                    dq.nodes@[node as int],
                                ));
                            }
                            assert(it0.in_chain(node));
                            assert(old(self).node_at(node).computation.is_none()) by {
                                assert(still_queued_evolution(
                                    old(self).node_at(node).computation,
                                    it0.node_at(node).computation,
                                ));
                            }
                            assert forall|m: usize|
                                m < old(self).nodes@.len() implies #[trigger] self.node_at(
                                m,
                            ).handles == old(self).node_at(m).handles by {
                                assert(it0.node_at(m).handles == old(self).node_at(m).handles);
                                assert(same_but_ready_link(
                                    it0.nodes@[m as int],
                                    dq.nodes@[m as int],
                                ));
                                if m != node {
                                    assert(self.nodes@[m as int] == mid.nodes@[m as int]);
                                }
                            }
                            assert forall|x: usize|
                                x != 0 && x < self.nodes@.len() && self.in_chain(x) implies old(
                                self,
                            ).in_chain(x) && still_queued_evolution(
                                old(self).node_at(x).computation,
                                self.node_at(x).computation,
                            ) by {
                                assert(self.in_chain(x) == dq.in_chain(x));
                                assert(x != node);
                                assert(dq.in_chain(x) == it0.in_chain(x));
                                assert(it0.in_chain(x));
                                assert(same_but_ready_link(
                                    it0.nodes@[x as int],
                                    dq.nodes@[x as int],
                                ));
                                assert(self.nodes@[x as int] == mid.nodes@[x as int]);
                            }
                            if old(self).pending.is_none() {
                                assert forall|x: usize|
                                    0 < x < self.nodes@.len() && old(self).in_chain(x)
                                        && !self.in_chain(x) implies advanced_once(
                                    old(self).node_at(x).computation,
                                    self.node_at(x).computation,
                                ) by {
                                    assert(self.in_chain(x) == dq.in_chain(x));
                                    assert(same_but_ready_link(
                                        it0.nodes@[x as int],
                                        dq.nodes@[x as int],
                                    ));
                                    if x == node {
                                        assert(self.node_at(node).computation.is_none());
                                    } else {
                                        assert(dq.in_chain(x) == it0.in_chain(x));
                                        assert(self.nodes@[x as int] == mid.nodes@[x as int]);
                                        assert(it0.node_at(x) == it0.node_at(x));
                                    }
                                }
                                if it0.parent_wakes != old(self).parent_wakes {
                                    let w = choose|w: usize| it0.deliverable_at(w);
                                    let jw = crate::seqs::lemma_contains_index(it0.chain@, w);
                                    assert(it0.chain_entry_ok(jw));
                                    assert(w < it0.nodes@.len());
                                    assert(w != node);
                                    assert(dq.in_chain(w) == it0.in_chain(w));
                                    assert(same_but_ready_link(
                                        it0.nodes@[w as int],
                                        dq.nodes@[w as int],
                                    ));
                                    assert(self.nodes@[w as int] == mid.nodes@[w as int]);
                                    assert(self.deliverable_at(w));
                                }
                            }
                        }
                    } else {
                        let mut nd2 = nd;
                        let prev = nd2.state;
                        nd2.state = prev & MAX_REFS;
                        let comp = nd2.computation.unwrap();
                        if comp.remaining == 0 {
                            // completed (or failed): surface the outcome and
                            // release the node
                            proof {
                                self.finished@ = self.finished@.insert(comp.outcome);
                            }
                            self.nodes.set(node, nd2);
                            self.len = self.len - 1;
                            proof {
                                self.lemma_poll_clear_exit(dq, node);
                                assert forall|i: int|
                                    0 <= i < self.owner@.len() implies #[trigger] self.owner@[i]
                                        < dq.nodes@.len() && self.owner@[i] < self.nodes@.len()
                                        && self.nodes@[self.owner@[i] as int].computation
                                        == dq.nodes@[self.owner@[i] as int].computation by {
                                    assert(self.owner_entry_ok(i));
                                }
                                if self.in_chain(node) {
                                    let j = crate::seqs::lemma_contains_index(self.chain@, node);
                                }
                            }
                            let ghost k = choose|k: int|
                                0 <= k < self.owner@.len() && self.owner@[k] == node;
                            proof {
                                assert(self.owner@.contains(node));
                                assert(self.live_out@ == outcomes_of(dq.nodes@, self.owner@));
                                assert forall|i: int|
                                    0 <= i < self.owner@.len() implies #[trigger] self.owner@[i]
                                        < dq.nodes@.len() && self.owner@[i] < self.nodes@.len()
                                        && outcome_at(self.nodes@, self.owner@[i]) == outcome_at(
                                        dq.nodes@,
                                        self.owner@[i],
                                    ) by {
                                    assert(self.owner_entry_ok(i));
                                }
                                crate::seqs::lemma_outcomes_frame_outcome(
                                    self.nodes@,
                                    dq.nodes@,
                                    self.owner@,
                                );
                                assert(self.live_out_ok());
                                assert(outcome_at(self.nodes@, node) == comp.outcome);
                                crate::seqs::lemma_outcomes_remove(self.nodes@, self.owner@, k);
                            }
                            let ghost before = *self;
                            self.release_node(node, Ghost(k));
                            proof {
                                assert(self.inner_ok());
                                assert(self.collection_ok());
                                assert(before.live_out@.count(comp.outcome) >= 1);
                                assert(self.live_out@ == before.live_out@.remove(comp.outcome));
                                assert(self.finished@ == it0.finished@.insert(comp.outcome));
                                assert(it0.submitted@ == it0.finished@.add(it0.cancelled@).add(
                                    before.live_out@,
                                ));
                                assert(it0.finished@.add(it0.cancelled@).add(before.live_out@)
                                    =~= it0.finished@.insert(comp.outcome).add(it0.cancelled@).add(
                                    before.live_out@.remove(comp.outcome),
                                ));
                                assert(self.sum_ok());
                                assert(self.wf());
                                // the delivered outcome comes from a node the
                                // call found queued and bound to complete
                                assert(it0.in_chain(node));
                                assert(it0.node_at(node).computation == Some(comp)) by {
                                    assert(same_but_ready_link(
                                        it0.nodes@[node as int],
                                        dq.nodes@[node as int],
                                    ));
                                }
                                assert(still_queued_evolution(
                                    old(self).node_at(node).computation,
                                    it0.node_at(node).computation,
                                ));
                                assert(old(self).was_deliverable(node, comp.outcome));
                                assert forall|m: usize|
                                    m < old(self).nodes@.len() implies #[trigger] self.node_at(
                                    m,
                                ).handles == old(self).node_at(m).handles by {
                                    assert(it0.node_at(m).handles == old(self).node_at(m).handles);
                                    assert(same_but_ready_link(
                                        it0.nodes@[m as int],
                                        dq.nodes@[m as int],
                                    ));
                                    assert(before.node_at(m).handles == dq.node_at(m).handles);
                                    if m != node {
                                        assert(self.node_at(m).computation == before.node_at(
                                            m,
                                        ).computation);
                                        assert(self.node_at(m).handles == before.node_at(
                                            m,
                                        ).handles);
                                    } else {
                                        assert(self.node_at(node).handles == before.node_at(
                                            node,
                                        ).handles);
                                    }
                                }
                            }
                            match comp.outcome {
                                Outcome::Value(v) => {
                                    proof {
                                        assert(old(self).delivers(PollResult::ReadySome(v))) by {
                                            assert(old(self).node_at(node) == old(self).node_at(
                                                node,
                                            ));
                                            assert(old(self).was_deliverable(
                                                node,
                                                Outcome::Value(v),
                                            ));
                                        }
                                    }
                                    return PollResult::ReadySome(v);
                                },
                                Outcome::Fault(e) => {
                                    proof {
                                        assert(old(self).delivers(PollResult::Fault(e))) by {
                                            assert(old(self).node_at(node) == old(self).node_at(
                                                node,
                                            ));
                                            assert(old(self).was_deliverable(
                                                node,
                                                Outcome::Fault(e),
                                            ));
                                        }
                                    }
                                    return PollResult::Fault(e);
                                },
                            }
                        } else {
                            // not ready: the computation advances; if it
                            // fired its own notifier during the poll, the
                            // node goes straight back into the queue
                            let c2 = Computation {
                                remaining: comp.remaining - 1,
                                self_notify: comp.self_notify,
                                outcome: comp.outcome,
                            };
                            nd2.computation = Some(c2);
                            self.nodes.set(node, nd2);
                            let ghost mid = *self;
                            proof {
                                self.lemma_poll_clear_exit(dq, node);
                                assert forall|i: int|
                                    0 <= i < self.owner@.len() implies #[trigger] self.owner@[i]
                                        < dq.nodes@.len() && self.owner@[i] < self.nodes@.len()
                                        && outcome_at(self.nodes@, self.owner@[i]) == outcome_at(
                                        dq.nodes@,
                                        self.owner@[i],
                                    ) by {
                                    assert(self.owner_entry_ok(i));
                                }
                                crate::seqs::lemma_outcomes_frame_outcome(
                                    self.nodes@,
                                    dq.nodes@,
                                    self.owner@,
                                );
                                assert(self.live_out_ok());
                                assert(self.sum_ok());
                                assert(self.collection_ok());
                                assert(self.wf());
                                // the measure: this node's work shrank by two
                                assert forall|i: int|
                                    0 <= i < self.chain@.len() implies #[trigger] self.chain@[i]
                                        < dq.nodes@.len() && self.chain@[i] < self.nodes@.len()
                                        && dq.nodes@[self.chain@[i] as int].computation
                                        == self.nodes@[self.chain@[i] as int].computation by {
                                    assert(self.chain_entry_ok(i));
                                    assert(self.chain@.contains(self.chain@[i]));
                                    assert(!self.in_chain(node));
                                }
                                lemma_chain_work_frame(dq.nodes@, self.nodes@, self.chain@);
                                assert(node_work(dq.nodes@, node) == 2 + 2 * (
                                comp.remaining as nat));
                                assert(chain_work(self.nodes@, self.chain@) + 2 + 2 * (
                                comp.remaining as nat) <= chain_work(it0.nodes@, it0.chain@));
                            }
                            proof {
                                // common invariant pieces before the optional
                                // self-notification: nothing but `node`'s
                                // slot changed, and its outcome is intact
                                assert(self.chain@ == dq.chain@);
                                assert(it0.node_at(node).computation == Some(comp)) by {
                                    assert(same_but_ready_link(
                                        it0.nodes@[node as int],
                                        dq.nodes@[node as int],
                                    ));
                                }
                                assert(still_queued_evolution(
                                    old(self).node_at(node).computation,
                                    it0.node_at(node).computation,
                                ));
                                assert(it0.in_chain(node));
                                assert forall|m: usize|
                                    m < old(self).nodes@.len() implies #[trigger] self.node_at(
                                    m,
                                ).handles == old(self).node_at(m).handles by {
                                    assert(it0.node_at(m).handles == old(self).node_at(m).handles);
                                    assert(same_but_ready_link(
                                        it0.nodes@[m as int],
                                        dq.nodes@[m as int],
                                    ));
                                    assert(self.node_at(m).handles == dq.node_at(m).handles);
                                }
                                assert forall|x: usize|
                                    x != 0 && x < self.nodes@.len() && self.in_chain(x)
                                        implies old(self).in_chain(x) && still_queued_evolution(
                                    old(self).node_at(x).computation,
                                    self.node_at(x).computation,
                                ) by {
                                    assert(self.in_chain(x) == dq.in_chain(x));
                                    assert(x != node);
                                    assert(dq.in_chain(x) == it0.in_chain(x));
                                    assert(it0.in_chain(x));
                                    assert(same_but_ready_link(
                                        it0.nodes@[x as int],
                                        dq.nodes@[x as int],
                                    ));
                                    assert(self.node_at(x).computation == dq.node_at(
                                        x,
                                    ).computation);
                                }
                            }
                            if comp.self_notify && self.pending.is_none() {
                                proof {
                                    assert(old(self).pending.is_none());
                                }
                                self.notify_step(node);
                                proof {
                                    assert(mid.wf());
                                    lemma_chain_work_push(self.nodes@, mid.chain@, node);
                                    assert forall|i: int|
                                        0 <= i < mid.chain@.len() implies #[trigger] mid.chain@[i]
                                            < mid.nodes@.len() && mid.chain@[i]
                                            < self.nodes@.len()
                                            && mid.nodes@[mid.chain@[i] as int].computation
                                            == self.nodes@[mid.chain@[i] as int].computation by {
                                        assert(mid.chain_entry_ok(i));
                                        assert(self.node_at(mid.chain@[i]).computation
                                            == mid.node_at(mid.chain@[i]).computation);
                                    }
                                    lemma_chain_work_frame(mid.nodes@, self.nodes@, mid.chain@);
                                    assert(node_work(self.nodes@, node) == 2 + 2 * (
                                    c2.remaining as nat));
                                    assert(chain_work(self.nodes@, self.chain@) < chain_work(
                                        it0.nodes@,
                                        it0.chain@,
                                    ));
                                    // the re-queued self-notifier keeps every
                                    // loop invariant alive: it is deliverable
                                    crate::seqs::lemma_push_contains(mid.chain@, node);
                                    assert(self.deliverable_at(node)) by {
                                        assert(self.chain@[self.chain@.len() - 1] == node);
                                        assert(self.node_at(node).computation == Some(c2));
                                    }
                                    assert forall|m: usize|
                                        m < old(self).nodes@.len() implies #[trigger] self.node_at(
                                        m,
                                    ).handles == old(self).node_at(m).handles by {
                                        assert(mid.node_at(m).handles == old(self).node_at(
                                            m,
                                        ).handles);
                                        assert(self.node_at(m).handles == mid.node_at(m).handles);
                                    }
                                    assert forall|x: usize|
                                        x != 0 && x < self.nodes@.len() && self.in_chain(x)
                                            implies old(self).in_chain(x)
                                            && still_queued_evolution(
                                        old(self).node_at(x).computation,
                                        self.node_at(x).computation,
                                    ) by {
                                        if x == node {
                                            assert(self.node_at(node).computation == Some(c2));
                                        } else {
                                            assert(mid.in_chain(x));
                                            assert(self.node_at(x).computation == mid.node_at(
                                                x,
                                            ).computation);
                                        }
                                    }
                                    assert forall|x: usize|
                                        0 < x < self.nodes@.len() && old(self).in_chain(x)
                                            && !self.in_chain(x) implies advanced_once(
                                        old(self).node_at(x).computation,
                                        self.node_at(x).computation,
                                    ) by {
                                        assert(x != node) by {
                                            assert(self.chain@[self.chain@.len() - 1] == node);
                                            assert(self.in_chain(node));
                                        }
                                        assert(!mid.in_chain(x)) by {
                                            if mid.chain@.contains(x) {
                                                let i = crate::seqs::lemma_contains_index(
                                                    mid.chain@,
                                                    x,
                                                );
                                                assert(self.chain@[i] == x);
                                                assert(self.in_chain(x));
                                            }
                                        }
                                        assert(mid.in_chain(x) == dq.in_chain(x));
                                        assert(dq.in_chain(x) == it0.in_chain(x));
                                        assert(!it0.in_chain(x));
                                        assert(it0.node_at(x) == it0.node_at(x));
                                        assert(same_but_ready_link(
                                            it0.nodes@[x as int],
                                            dq.nodes@[x as int],
                                        ));
                                        assert(dq.node_at(x).computation == it0.node_at(
                                            x,
                                        ).computation);
                                        assert(mid.node_at(x).computation == dq.node_at(
                                            x,
                                        ).computation);
                                        assert(self.node_at(x).computation == mid.node_at(
                                            x,
                                        ).computation);
                                    }
                                }
                            } else {
                                proof {
                                    assert(chain_work(self.nodes@, self.chain@) < chain_work(
                                        it0.nodes@,
                                        it0.chain@,
                                    ));
                                    // no self-notification: the node idles,
                                    // advanced exactly once, and anything
                                    // deliverable before is deliverable still
                                    if old(self).pending.is_none() {
                                        assert(!comp.self_notify);
                                        assert forall|x: usize|
                                            #![trigger self.node_at(x)]
                                            0 < x < self.nodes@.len() && old(self).in_chain(x)
                                                && !self.in_chain(x) implies advanced_once(
                                            old(self).node_at(x).computation,
                                            self.node_at(x).computation,
                                        ) by {
                                            assert(self.in_chain(x) == dq.in_chain(x));
                                            assert(same_but_ready_link(
                                                it0.nodes@[x as int],
                                                dq.nodes@[x as int],
                                            ));
                                            if x == node {
                                                assert(self.node_at(node).computation == Some(c2));
                                                assert(still_queued_evolution(
                                                    old(self).node_at(node).computation,
                                                    it0.node_at(node).computation,
                                                ));
                                            } else {
                                                assert(dq.in_chain(x) == it0.in_chain(x));
                                                assert(self.node_at(x).computation == dq.node_at(
                                                    x,
                                                ).computation);
                                                assert(it0.node_at(x) == it0.node_at(x));
                                            }
                                        }
                                        if it0.parent_wakes != old(self).parent_wakes {
                                            let w = choose|w: usize| it0.deliverable_at(w);
                                            let jw = crate::seqs::lemma_contains_index(
                                                it0.chain@,
                                                w,
                                            );
                                            assert(it0.chain_entry_ok(jw));
                                            assert(w < it0.nodes@.len());
                                            assert(w != node);
                                            assert(dq.in_chain(w) == it0.in_chain(w));
                                            assert(same_but_ready_link(
                                                it0.nodes@[w as int],
                                                dq.nodes@[w as int],
                                            ));
                                            assert(self.node_at(w).computation == dq.node_at(
                                                w,
                                            ).computation);
                                            assert(self.deliverable_at(w));
                                        }
                                    }
                                }
                            }
                        }
                    }
                },
            }
        }
    }

    /// After a stale queue entry gave its reference back, the invariant
    /// holds and the queue's remaining work shrank.
    proof fn lemma_poll_stale_exit(
        &self,
        it0: FuturesUnordered,
        mid: FuturesUnordered,
        node: usize,
    )
        requires
            it0.wf(),
            mid.arena_ok(),
            mid.owner_links_ok(),
            mid.owner_comp_ok(),
            mid.chain_ok(),
            mid.inner_ok(),
            mid.collection_ok(),
            mid.live_out_ok(),
            mid.sum_ok(),
            mid.counts_ok_except(node),
            mid.flags_ok_except(node),
            0 < node < mid.nodes@.len(),
            !mid.node_at(node).freed,
            !mid.in_chain(node),
            !mid.in_ready(node),
            !mid.in_owner(node),
            is_queued(mid.node_at(node).state),
            refs_of(mid.node_at(node).state) as nat == 1 + mid.node_at(node).handles@,
            mid.node_at(node).computation.is_none(),
            chain_work(mid.nodes@, mid.chain@) + node_work(mid.nodes@, node) <= chain_work(
                it0.nodes@,
                it0.chain@,
            ),
            mid.len == it0.len,
            mid.owner == it0.owner,
            self.nodes@.len() == mid.nodes@.len(),
            forall|i: int|
                0 <= i < mid.nodes@.len() && i != node ==> #[trigger] self.nodes@[i]
                    == mid.nodes@[i],
            refs_of(self.node_at(node).state) == refs_of(mid.node_at(node).state) - 1,
            is_queued(self.node_at(node).state) == is_queued(mid.node_at(node).state),
            self.node_at(node).computation == mid.node_at(node).computation,
            self.node_at(node).handles == mid.node_at(node).handles,
            self.node_at(node).next_all == mid.node_at(node).next_all,
            self.node_at(node).prev_all == mid.node_at(node).prev_all,
            self.node_at(node).next_readiness == mid.node_at(node).next_readiness,
            self.node_at(node).freed == (refs_of(mid.node_at(node).state) == 1),
            self.len == mid.len,
            self.head_all == mid.head_all,
            self.head_readiness == mid.head_readiness,
            self.tail_readiness == mid.tail_readiness,
            self.pending == mid.pending,
            self.owner == mid.owner,
            self.chain == mid.chain,
            self.collection_alive == mid.collection_alive,
            self.inner_ref_count == mid.inner_ref_count,
            self.inner_alive == mid.inner_alive,
            self.inner_handles == mid.inner_handles,
            self.live_out == mid.live_out,
            self.submitted == mid.submitted,
            self.finished == mid.finished,
            self.cancelled == mid.cancelled,
        ensures
            self.wf(),
            chain_work(self.nodes@, self.chain@) < chain_work(it0.nodes@, it0.chain@),
    {
        assert(self.node_at(0) == mid.node_at(0));
        assert(self.arena_ok());
        assert(self.owner@ == mid.owner@);
        assert forall|i: int| 0 <= i < self.owner@.len() implies self.owner_entry_ok(i) by {
            assert(mid.owner_entry_ok(i));
            assert(self.owner@[i] != node) by {
                assert(mid.owner@.contains(mid.owner@[i]));
            }
            assert(self.node_at(self.owner@[i]) == mid.node_at(mid.owner@[i]));
        }
        assert(self.owner_links_ok());
        assert forall|i: int|
            0 <= i < self.owner@.len() implies self.node_at(
            #[trigger] self.owner@[i],
        ).computation.is_some() by {
            assert(mid.owner_entry_ok(i));
            assert(mid.node_at(mid.owner@[i]).computation.is_some());
            assert(self.owner@[i] != node) by {
                assert(mid.owner@.contains(mid.owner@[i]));
            }
            assert(self.node_at(self.owner@[i]) == mid.node_at(mid.owner@[i]));
        }
        assert forall|m: usize|
            0 < m < self.nodes@.len() && !self.node_at(m).freed && !self.in_owner(m) implies {
            &&& #[trigger] self.node_at(m).computation.is_none()
            &&& self.node_at(m).next_all == NIL
            &&& self.node_at(m).prev_all == NIL
        } by {
            assert(mid.node_at(m) == mid.node_at(m));
            if m != node {
                assert(self.node_at(m) == mid.node_at(m));
            }
            assert(self.in_owner(m) == mid.in_owner(m));
        }
        assert(self.owner_comp_ok());
        assert forall|i: int| 0 <= i < self.chain@.len() implies self.chain_entry_ok(i) by {
            assert(mid.chain_entry_ok(i));
            assert(self.chain@[i] != node) by {
                assert(mid.chain@.contains(mid.chain@[i]));
            }
            assert(self.node_at(self.chain@[i]) == mid.node_at(mid.chain@[i]));
        }
        match mid.pending {
            Some(pe) => {
                assert(pe.node != node);
            },
            None => {},
        }
        assert(self.chain_ok());
        assert forall|i: int| 0 <= i < self.chain@.len() implies is_queued(
            self.node_at(#[trigger] self.chain@[i]).state,
        ) by {
            assert(mid.chain_entry_ok(i));
            assert(is_queued(mid.node_at(mid.chain@[i]).state));
            assert(self.chain@[i] != node) by {
                assert(mid.chain@.contains(mid.chain@[i]));
            }
            assert(self.node_at(self.chain@[i]) == mid.node_at(mid.chain@[i]));
        }
        assert forall|m: usize|
            0 < m < self.nodes@.len() && !self.node_at(m).freed && self.node_at(
                m,
            ).computation.is_none() implies is_queued(#[trigger] self.node_at(m).state) by {
            assert(mid.node_at(m) == mid.node_at(m));
            if m != node {
                assert(self.node_at(m) == mid.node_at(m));
            } else {
                assert(is_queued(mid.node_at(node).state));
            }
        }
        assert forall|m: usize|
            0 < m < self.nodes@.len() && !self.node_at(m).freed && self.node_at(
                m,
            ).computation.is_some() && is_queued(self.node_at(m).state) implies self.in_ready(
            m,
        ) by {
            assert(m != node) by {
                if m == node {
                    assert(self.node_at(node).computation.is_none());
                }
            }
            assert(mid.node_at(m) == mid.node_at(m));
            assert(self.node_at(m) == mid.node_at(m));
            assert(mid.in_ready(m) == self.in_ready(m));
        }
        assert(self.flags_ok());
        assert forall|m: usize| 0 < m < self.nodes@.len() implies {
            &&& (!self.node_at(m).freed ==> self.node_at(m).refs() as nat == self.base_ref(m)
                + self.node_at(m).handles@ && self.node_at(m).refs() >= 1)
            &&& (self.node_at(m).freed ==> self.node_at(m).handles@ == 0 && !self.in_owner(m)
                && !self.in_ready(m))
        } by {
            assert(mid.node_at(m) == mid.node_at(m));
            assert(self.in_owner(m) == mid.in_owner(m));
            assert(self.in_chain(m) == mid.in_chain(m));
            assert(self.in_ready(m) == mid.in_ready(m));
            assert(self.base_ref(m) == mid.base_ref(m));
            if m != node {
                assert(self.node_at(m) == mid.node_at(m));
                assert(self.node_at(m).state == mid.node_at(m).state);
                assert(self.node_at(m).freed == mid.node_at(m).freed);
                assert(self.node_at(m).handles == mid.node_at(m).handles);
            } else {
                assert(self.base_ref(node) == 0);
            }
        }
        assert(self.counts_ok());
        assert forall|i: int|
            0 <= i < self.owner@.len() implies #[trigger] self.owner@[i] < mid.nodes@.len()
                && self.owner@[i] < self.nodes@.len() && self.nodes@[self.owner@[i] as int].computation
                == mid.nodes@[self.owner@[i] as int].computation by {
            assert(mid.owner_entry_ok(i));
            assert(self.owner@[i] != node) by {
                assert(mid.owner@.contains(mid.owner@[i]));
            }
        }
        crate::seqs::lemma_outcomes_frame(mid.nodes@, self.nodes@, self.owner@);
        assert(self.live_out_ok());
        assert(self.sum_ok());
        assert(self.inner_ok());
        assert(self.collection_ok());
        assert forall|i: int|
            0 <= i < self.chain@.len() implies #[trigger] self.chain@[i] < mid.nodes@.len()
                && self.chain@[i] < self.nodes@.len()
                && mid.nodes@[self.chain@[i] as int].computation
                == self.nodes@[self.chain@[i] as int].computation by {
            assert(mid.chain_entry_ok(i));
            assert(self.chain@[i] != node) by {
                assert(mid.chain@.contains(mid.chain@[i]));
            }
        }
        lemma_chain_work_frame(mid.nodes@, self.nodes@, self.chain@);
        assert(node_work(mid.nodes@, node) == 1);
    }

    /// Registering the parent task or counting a wake signal touches no
    /// structure: the whole invariant carries over unchanged.
    proof fn lemma_scalar_frame(&self, pre: FuturesUnordered)
        requires
            pre.wf(),
            self.nodes == pre.nodes,
            self.len == pre.len,
            self.head_all == pre.head_all,
            self.head_readiness == pre.head_readiness,
            self.tail_readiness == pre.tail_readiness,
            self.pending == pre.pending,
            self.inner_ref_count == pre.inner_ref_count,
            self.inner_alive == pre.inner_alive,
            self.collection_alive == pre.collection_alive,
            self.owner == pre.owner,
            self.chain == pre.chain,
            self.inner_handles == pre.inner_handles,
            self.live_out == pre.live_out,
            self.submitted == pre.submitted,
            self.finished == pre.finished,
            self.cancelled == pre.cancelled,
        ensures
            self.wf(),
    {
        assert(self.node_at(0) == pre.node_at(0));
        assert forall|i: int| 0 <= i < self.owner@.len() implies self.owner_entry_ok(i) by {
            assert(pre.owner_entry_ok(i));
            assert(self.node_at(self.owner@[i]) == pre.node_at(pre.owner@[i]));
        }
        assert forall|i: int|
            0 <= i < self.owner@.len() implies self.node_at(
            #[trigger] self.owner@[i],
        ).computation.is_some() by {
            assert(pre.owner_entry_ok(i));
            assert(pre.node_at(pre.owner@[i]).computation.is_some());
            assert(self.node_at(self.owner@[i]) == pre.node_at(pre.owner@[i]));
        }
        assert forall|m: usize|
            0 < m < self.nodes@.len() && !self.node_at(m).freed && !self.in_owner(m) implies {
            &&& #[trigger] self.node_at(m).computation.is_none()
            &&& self.node_at(m).next_all == NIL
            &&& self.node_at(m).prev_all == NIL
        } by {
            assert(pre.node_at(m) == pre.node_at(m));
            assert(self.node_at(m) == pre.node_at(m));
            assert(self.in_owner(m) == pre.in_owner(m));
        }
        assert forall|i: int| 0 <= i < self.chain@.len() implies self.chain_entry_ok(i) by {
            assert(pre.chain_entry_ok(i));
            assert(self.node_at(self.chain@[i]) == pre.node_at(pre.chain@[i]));
        }
        assert forall|i: int| 0 <= i < self.chain@.len() implies is_queued(
            self.node_at(#[trigger] self.chain@[i]).state,
        ) by {
            assert(pre.chain_entry_ok(i));
            assert(is_queued(pre.node_at(pre.chain@[i]).state));
            assert(self.node_at(self.chain@[i]) == pre.node_at(pre.chain@[i]));
        }
        assert forall|m: usize|
            0 < m < self.nodes@.len() && !self.node_at(m).freed && self.node_at(
                m,
            ).computation.is_none() implies is_queued(#[trigger] self.node_at(m).state) by {
            assert(pre.node_at(m) == pre.node_at(m));
            assert(self.node_at(m) == pre.node_at(m));
        }
        assert forall|m: usize|
            0 < m < self.nodes@.len() && !self.node_at(m).freed && self.node_at(
                m,
            ).computation.is_some() && is_queued(self.node_at(m).state) implies self.in_ready(
            m,
        ) by {
            assert(pre.node_at(m) == pre.node_at(m));
            assert(self.node_at(m) == pre.node_at(m));
            assert(pre.in_ready(m) == self.in_ready(m));
        }
        assert(self.flags_ok());
        assert forall|m: usize| 0 < m < self.nodes@.len() implies {
            &&& (!self.node_at(m).freed ==> self.node_at(m).refs() as nat == self.base_ref(m)
                + self.node_at(m).handles@ && self.node_at(m).refs() >= 1)
            &&& (self.node_at(m).freed ==> self.node_at(m).handles@ == 0 && !self.in_owner(m)
                && !self.in_ready(m))
        } by {
            assert(pre.node_at(m) == pre.node_at(m));
            assert(self.node_at(m) == pre.node_at(m));
            assert(self.in_owner(m) == pre.in_owner(m));
            assert(self.in_ready(m) == pre.in_ready(m));
            assert(self.base_ref(m) == pre.base_ref(m));
        }
        assert(self.counts_ok());
        assert(self.live_out@ == outcomes_of(self.nodes@, self.owner@));
    }

    /// After the consumer cleared the QUEUED flag of the node it just
    /// dequeued — and possibly advanced the computation without changing its
    /// outcome — the structural invariant components hold again; the node is
    /// a live owner-set member.
    proof fn lemma_poll_clear_exit(&self, d: FuturesUnordered, node: usize)
        requires
            d.arena_ok(),
            d.owner_links_ok(),
            d.owner_comp_ok(),
            d.chain_ok(),
            d.inner_ok(),
            d.counts_ok_except(node),
            d.flags_ok_except(node),
            0 < node < d.nodes@.len(),
            !d.node_at(node).freed,
            !d.in_chain(node),
            !d.in_ready(node),
            is_queued(d.node_at(node).state),
            refs_of(d.node_at(node).state) as nat == 1 + d.node_at(node).handles@,
            d.node_at(node).computation.is_some(),
            self.nodes@.len() == d.nodes@.len(),
            forall|m: int|
                0 <= m < d.nodes@.len() && m != node ==> #[trigger] self.nodes@[m] == d.nodes@[m],
            self.node_at(node).state == (d.node_at(node).state & MAX_REFS),
            self.node_at(node).computation.is_some(),
            self.node_at(node).freed == d.node_at(node).freed,
            self.node_at(node).handles == d.node_at(node).handles,
            self.node_at(node).next_all == d.node_at(node).next_all,
            self.node_at(node).prev_all == d.node_at(node).prev_all,
            self.node_at(node).next_readiness == d.node_at(node).next_readiness,
            self.owner == d.owner,
            self.chain == d.chain,
            self.pending == d.pending,
            self.head_all == d.head_all,
            self.head_readiness == d.head_readiness,
            self.tail_readiness == d.tail_readiness,
            self.inner_ref_count == d.inner_ref_count,
            self.inner_alive == d.inner_alive,
            self.collection_alive == d.collection_alive,
            self.inner_handles == d.inner_handles,
        ensures
            self.arena_ok(),
            self.owner_links_ok(),
            self.owner_comp_ok(),
            self.chain_ok(),
            self.flags_ok(),
            self.counts_ok(),
            self.inner_ok(),
            self.in_owner(node),
            !is_queued(self.node_at(node).state),
            refs_of(self.node_at(node).state) as nat == 1 + self.node_at(node).handles@,
    {
        lemma_clear_queued(d.node_at(node).state);
        assert(self.owner@ == d.owner@);
        assert(d.in_owner(node)) by {
            if !d.in_owner(node) {
                assert(d.node_at(node) == d.node_at(node));
                assert(d.node_at(node).computation.is_none());
            }
        }
        assert(self.in_owner(node));
        assert(self.node_at(0) == d.node_at(0));
        assert(self.arena_ok());
        assert forall|i: int| 0 <= i < self.owner@.len() implies self.owner_entry_ok(i) by {
            assert(d.owner_entry_ok(i));
            if self.owner@[i] != node {
                assert(self.node_at(self.owner@[i]) == d.node_at(d.owner@[i]));
            }
        }
        assert(self.owner_links_ok());
        assert forall|i: int|
            0 <= i < self.owner@.len() implies self.node_at(
            #[trigger] self.owner@[i],
        ).computation.is_some() by {
            assert(d.owner_entry_ok(i));
            assert(d.node_at(d.owner@[i]).computation.is_some());
            if self.owner@[i] != node {
                assert(self.node_at(self.owner@[i]) == d.node_at(d.owner@[i]));
            }
        }
        assert forall|m: usize|
            0 < m < self.nodes@.len() && !self.node_at(m).freed && !self.in_owner(m) implies {
            &&& #[trigger] self.node_at(m).computation.is_none()
            &&& self.node_at(m).next_all == NIL
            &&& self.node_at(m).prev_all == NIL
        } by {
            assert(m != node);
            assert(d.node_at(m) == d.node_at(m));
            assert(self.node_at(m) == d.node_at(m));
            assert(self.in_owner(m) == d.in_owner(m));
        }
        assert(self.owner_comp_ok());
        assert forall|i: int| 0 <= i < self.chain@.len() implies self.chain_entry_ok(i) by {
            assert(d.chain_entry_ok(i));
            assert(self.chain@[i] != node) by {
                assert(d.chain@.contains(d.chain@[i]));
            }
            assert(self.node_at(self.chain@[i]) == d.node_at(d.chain@[i]));
        }
        match d.pending {
            Some(pe) => {
                assert(pe.node != node);
            },
            None => {},
        }
        assert(self.chain_ok());
        assert forall|i: int| 0 <= i < self.chain@.len() implies is_queued(
            self.node_at(#[trigger] self.chain@[i]).state,
        ) by {
            assert(d.chain_entry_ok(i));
            assert(is_queued(d.node_at(d.chain@[i]).state));
            assert(self.chain@[i] != node) by {
                assert(d.chain@.contains(d.chain@[i]));
            }
            assert(self.node_at(self.chain@[i]) == d.node_at(d.chain@[i]));
        }
        assert forall|m: usize|
            0 < m < self.nodes@.len() && !self.node_at(m).freed && self.node_at(
                m,
            ).computation.is_none() implies is_queued(#[trigger] self.node_at(m).state) by {
            assert(m != node);
            assert(d.node_at(m) == d.node_at(m));
            assert(self.node_at(m) == d.node_at(m));
        }
        assert forall|m: usize|
            0 < m < self.nodes@.len() && !self.node_at(m).freed && self.node_at(
                m,
            ).computation.is_some() && is_queued(self.node_at(m).state) implies self.in_ready(
            m,
        ) by {
            if m != node {
                assert(d.node_at(m) == d.node_at(m));
                assert(self.node_at(m) == d.node_at(m));
                assert(d.in_ready(m) == self.in_ready(m));
            }
        }
        assert(self.flags_ok());
        assert forall|m: usize| 0 < m < self.nodes@.len() implies {
            &&& (!self.node_at(m).freed ==> self.node_at(m).refs() as nat == self.base_ref(m)
                + self.node_at(m).handles@ && self.node_at(m).refs() >= 1)
            &&& (self.node_at(m).freed ==> self.node_at(m).handles@ == 0 && !self.in_owner(m)
                && !self.in_ready(m))
        } by {
            assert(d.node_at(m) == d.node_at(m));
            assert(self.in_owner(m) == d.in_owner(m));
            assert(self.in_chain(m) == d.in_chain(m));
            assert(self.in_ready(m) == d.in_ready(m));
            if m != node {
                assert(self.base_ref(m) == d.base_ref(m));
                assert(self.node_at(m).state == d.node_at(m).state);
                assert(self.node_at(m).freed == d.node_at(m).freed);
                assert(self.node_at(m).handles == d.node_at(m).handles);
            } else {
                assert(self.base_ref(node) == 1);
            }
        }
        assert(self.counts_ok());
    }
}

/// Everything of a node but its readiness link is unchanged.
pub open spec fn same_but_ready_link(a: Node, b: Node) -> bool {
    b == (Node { next_readiness: b.next_readiness, ..a })
}

/// Everything of a node but its owner-set links is unchanged.
pub open spec fn same_but_owner_links(a: Node, b: Node) -> bool {
    b == (Node { next_all: b.next_all, prev_all: b.prev_all, ..a })
}

/// How the computation slot of a still-queued node may look part-way through
/// one poll call: untouched, or — for a self-notifying computation — polled
/// some number of times and re-queued, its outcome and re-arming unchanged.
pub open spec fn still_queued_evolution(a: Option<Computation>, b: Option<Computation>) -> bool {
    match a {
        Some(c0) => match b {
            Some(c) => c.outcome == c0.outcome && c.self_notify == c0.self_notify && c.remaining
                <= c0.remaining && (c.remaining == c0.remaining || c0.self_notify),
            None => false,
        },
        None => b.is_none(),
    }
}

/// A queued computation the consumer polled not-ready exactly once and left
/// idle: advanced by one report, not self-arming; a stale slot stays empty.
pub open spec fn advanced_once(a: Option<Computation>, b: Option<Computation>) -> bool {
    match a {
        Some(c0) => !c0.self_notify && c0.remaining >= 1 && b == Some(
            Computation {
                remaining: (c0.remaining - 1) as u64,
                self_notify: c0.self_notify,
                outcome: c0.outcome,
            },
        ),
        None => b.is_none(),
    }
}

/// The chain after the consumer pops one real node: a leading stub is
/// skipped first; the element behind it leaves.
pub open spec fn chain_popped(c: Seq<usize>) -> Seq<usize> {
    if c[0] == 0 {
        c.skip(2)
    } else {
        c.skip(1)
    }
}

/// The real node at the front of the chain, behind a leading stub if any.
pub open spec fn chain_front_real(c: Seq<usize>) -> usize {
    if c[0] == 0 {
        c[1]
    } else {
        c[0]
    }
}

/// Every invariant component that does not look at the readiness queue
/// survives an operation that only rewrites readiness links and the queue
/// ends: the owner set, the stub's shape, the counts' frame and the history
/// all carry over.
pub proof fn lemma_ready_link_frame(pre: FuturesUnordered, post: FuturesUnordered)
    requires
        pre.arena_ok(),
        pre.owner_links_ok(),
        pre.owner_comp_ok(),
        pre.inner_ok(),
        pre.collection_ok(),
        pre.live_out_ok(),
        pre.sum_ok(),
        post.nodes@.len() == pre.nodes@.len(),
        forall|i: int|
            0 <= i < pre.nodes@.len() ==> same_but_ready_link(
                pre.nodes@[i],
                #[trigger] post.nodes@[i],
            ),
        post.len == pre.len,
        post.head_all == pre.head_all,
        post.owner == pre.owner,
        post.collection_alive == pre.collection_alive,
        post.inner_ref_count == pre.inner_ref_count,
        post.inner_alive == pre.inner_alive,
        post.inner_handles == pre.inner_handles,
        post.live_out == pre.live_out,
        post.submitted == pre.submitted,
        post.finished == pre.finished,
        post.cancelled == pre.cancelled,
    ensures
        post.arena_ok(),
        post.owner_links_ok(),
        post.owner_comp_ok(),
        post.inner_ok(),
        post.collection_ok(),
        post.live_out_ok(),
        post.sum_ok(),
{
    assert(same_but_ready_link(pre.nodes@[0], post.nodes@[0]));
    assert forall|i: int| 0 <= i < post.owner@.len() implies post.owner_entry_ok(i) by {
        assert(pre.owner_entry_ok(i));
        assert(same_but_ready_link(pre.nodes@[post.owner@[i] as int], post.nodes@[post.owner@[i] as int]));
    }
    assert forall|i: int|
        0 <= i < post.owner@.len() implies post.node_at(
        #[trigger] post.owner@[i],
    ).computation.is_some() by {
        assert(pre.owner_entry_ok(i));
        assert(same_but_ready_link(pre.nodes@[post.owner@[i] as int], post.nodes@[post.owner@[i] as int]));
    }
    assert forall|n: usize|
        0 < n < post.nodes@.len() && !post.node_at(n).freed && !post.in_owner(n) implies {
        &&& #[trigger] post.node_at(n).computation.is_none()
        &&& post.node_at(n).next_all == NIL
        &&& post.node_at(n).prev_all == NIL
    } by {
        assert(same_but_ready_link(pre.nodes@[n as int], post.nodes@[n as int]));
        assert(pre.node_at(n) == pre.node_at(n));
        assert(post.in_owner(n) == pre.in_owner(n));
        assert(n < pre.nodes@.len());
        assert(!pre.node_at(n).freed);
        assert(!pre.in_owner(n));
        assert(pre.node_at(n).computation.is_none());
        assert(pre.node_at(n).next_all == NIL);
        assert(pre.node_at(n).prev_all == NIL);
        assert(post.node_at(n).computation == pre.node_at(n).computation);
        assert(post.node_at(n).next_all == pre.node_at(n).next_all);
        assert(post.node_at(n).prev_all == pre.node_at(n).prev_all);
    }
    assert forall|i: int|
        0 <= i < post.owner@.len() implies #[trigger] post.owner@[i] < pre.nodes@.len()
            && post.owner@[i] < post.nodes@.len() && post.nodes@[post.owner@[i] as int].computation
            == pre.nodes@[post.owner@[i] as int].computation by {
        assert(pre.owner_entry_ok(i));
        assert(same_but_ready_link(pre.nodes@[post.owner@[i] as int], post.nodes@[post.owner@[i] as int]));
    }
    crate::seqs::lemma_outcomes_frame(pre.nodes@, post.nodes@, post.owner@);
}

/// Converts a list of computations into a collection that manages them all:
/// an empty collection with each computation pushed in order. None of them
/// is polled yet.
pub fn futures_unordered(futures: Vec<Computation>) -> (r: FuturesUnordered)
    requires
        futures@.len() + 2 < NIL,
    ensures
        r.wf(),
        r.collection_alive,
        r.pending.is_none(),
        r.len == futures@.len(),
        r.submitted@ == outcomes_list(futures@),
        r.finished@ == Multiset::<Outcome>::empty(),
        r.cancelled@ == Multiset::<Outcome>::empty(),
        r.inner_handles@ == 0,
        r.parent_wakes == 0,
        r.nodes@.len() == futures@.len() + 1,
        forall|i: int|
            0 <= i < futures@.len() ==> r.node_at(((i + 1) as usize)).computation == Some(
                #[trigger] futures@[i],
            ),
{
    let mut queue = FuturesUnordered::new();
    let mut i: usize = 0;
    proof {
        assert(futures@.take(0) =~= Seq::<Computation>::empty());
        assert(outcomes_list(Seq::<Computation>::empty()) == Multiset::<Outcome>::empty());
    }
    while i < futures.len()
        invariant
            queue.wf(),
            queue.collection_alive,
            queue.pending.is_none(),
            i <= futures@.len(),
            futures@.len() + 2 < NIL,
            queue.nodes@.len() == i + 1,
            queue.len == i,
            queue.submitted@ == outcomes_list(futures@.take(i as int)),
            queue.finished@ == Multiset::<Outcome>::empty(),
            queue.cancelled@ == Multiset::<Outcome>::empty(),
            queue.inner_handles@ == 0,
            queue.parent_wakes == 0,
            forall|j: int|
                0 <= j < i ==> queue.node_at(((j + 1) as usize)).computation == Some(
                    #[trigger] futures@[j],
                ),
        decreases futures@.len() - i,
    {
        queue.push(futures[i]);
        proof {
            assert forall|j: int|
                0 <= j < i + 1 implies queue.node_at(((j + 1) as usize)).computation == Some(
                #[trigger] futures@[j],
            ) by {
                if j < i {
                    assert(queue.node_at(((j + 1) as usize)).computation == queue.node_at(
                        ((j + 1) as usize),
                    ).computation);
                }
            }
            assert(futures@.take(i + 1).drop_last() =~= futures@.take(i as int));
            assert(futures@.take(i + 1).last() == futures@[i as int]);
            assert(outcomes_list(futures@.take(i + 1)) == outcomes_list(
                futures@.take(i as int),
            ).insert(futures@[i as int].outcome));
        }
        i = i + 1;
    }
    proof {
        assert(futures@.take(futures@.len() as int) =~= futures@);
    }
    queue
}

} // verus!
