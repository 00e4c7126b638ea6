//! Producer-side operations on the shared head: notifying a node ready,
//! reference counting of nodes and of the shared head itself. Any number of
//! producers may run these against the engine; none of them reads or drops a
//! computation — the consumer is the only thread that ever touches the
//! payload.

use vstd::prelude::*;

use crate::collection::FuturesUnordered;
use crate::collection::outcomes_of;
use crate::collection::PendingEnqueue;
use crate::node::NIL;
use crate::state::MAX_REFS;
use crate::state::QUEUED;
use crate::state::abort;
use crate::state::is_queued;
use crate::state::lemma_inc;
use crate::state::lemma_set_queued;
use crate::state::refs_of;

verus! {

/// The parent-task wake counter after one more signal; the counter
/// saturates rather than wrap.
pub open spec fn bumped(w: u64) -> u64 {
    if w == u64::MAX {
        w
    } else {
        (w + 1) as u64
    }
}

/// One wake signal to the parent task.
pub(crate) fn bump(w: u64) -> (r: u64)
    ensures
        r == bumped(w),
{
    if w < u64::MAX {
        w + 1
    } else {
        w
    }
}

impl FuturesUnordered {
    /// `notify(id)`: a notifier handle fires for its node. The holder owns a
    /// reference to the node and to the shared head, so both are alive. The
    /// first flip of the QUEUED flag — and only that flip — enqueues the
    /// node and signals the parent task; a second notification before the
    /// consumer polls changes nothing at all. No computation is touched.
    pub fn notify(&mut self, id: usize)
        requires
            old(self).wf(),
            old(self).pending.is_none(),
            0 < id < old(self).nodes@.len(),
            old(self).node_at(id).handles@ >= 1,
            old(self).inner_handles@ >= 1,
        ensures
            final(self).wf(),
            final(self).pending.is_none(),
            final(self).collection_alive == old(self).collection_alive,
            final(self).len == old(self).len,
            final(self).owner == old(self).owner,
            final(self).nodes@.len() == old(self).nodes@.len(),
            final(self).submitted == old(self).submitted,
            final(self).finished == old(self).finished,
            final(self).cancelled == old(self).cancelled,
            final(self).inner_ref_count == old(self).inner_ref_count,
            final(self).inner_handles == old(self).inner_handles,
            forall|m: usize|
                m < old(self).nodes@.len() ==> #[trigger] final(self).node_at(m).computation == old(
                    self,
                ).node_at(m).computation && final(self).node_at(m).freed == old(self).node_at(
                    m,
                ).freed && final(self).node_at(m).handles == old(self).node_at(m).handles,
            is_queued(old(self).node_at(id).state) ==> *final(self) == *old(self),
            !is_queued(old(self).node_at(id).state) ==> {
                &&& final(self).chain@ == old(self).chain@.push(id)
                &&& final(self).in_ready(id)
                &&& is_queued(final(self).node_at(id).state)
                &&& refs_of(final(self).node_at(id).state) == refs_of(old(self).node_at(id).state)
                &&& final(self).parent_wakes == bumped(old(self).parent_wakes)
                &&& (forall|m: usize|
                    m < old(self).nodes@.len() && m != id ==> #[trigger] final(self).node_at(
                        m,
                    ).state == old(self).node_at(m).state)
            },
    {
        proof {
            assert(old(self).node_at(id) == old(self).node_at(id));
        }
        self.notify_step(id);
    }

    /// `ref_inc(id)`: the task system takes one more reference to node `id`,
    /// as when it clones the waker vended for that node. A count past
    /// MAX_REFS would abort the process, so the contract excludes it. No
    /// computation is touched.
    pub fn ref_inc(&mut self, id: usize)
        requires
            old(self).wf(),
            0 < id < old(self).nodes@.len(),
            !old(self).node_at(id).freed,
            refs_of(old(self).node_at(id).state) < MAX_REFS,
        ensures
            final(self).wf(),
            final(self).nodes@.len() == old(self).nodes@.len(),
            final(self).node_at(id).handles@ == old(self).node_at(id).handles@ + 1,
            refs_of(final(self).node_at(id).state) == refs_of(old(self).node_at(id).state) + 1,
            !final(self).node_at(id).freed,
            final(self).len == old(self).len,
            final(self).owner == old(self).owner,
            final(self).chain == old(self).chain,
            final(self).pending == old(self).pending,
            final(self).collection_alive == old(self).collection_alive,
            final(self).parent_wakes == old(self).parent_wakes,
            final(self).inner_ref_count == old(self).inner_ref_count,
            final(self).inner_handles == old(self).inner_handles,
            final(self).submitted == old(self).submitted,
            final(self).finished == old(self).finished,
            final(self).cancelled == old(self).cancelled,
            forall|m: usize|
                m < old(self).nodes@.len() ==> #[trigger] final(self).node_at(m).computation == old(
                    self,
                ).node_at(m).computation && final(self).node_at(m).freed == old(self).node_at(
                    m,
                ).freed,
            forall|m: usize|
                m < old(self).nodes@.len() && m != id ==> #[trigger] final(self).node_at(m) == old(
                    self,
                ).node_at(m),
    {
        let mut nd = self.nodes[id];
        proof {
            lemma_inc(nd.state);
        }
        let old_size = nd.state;
        nd.state = old_size + 1;
        if (old_size & MAX_REFS) >= MAX_REFS {
            // the contract keeps the count under MAX_REFS; the overflow halt
            // is proved unreachable
            proof {
                assert(false);
            }
            abort();
        }
        nd.handles = Ghost((nd.handles@ + 1) as nat);
        self.nodes.set(id, nd);
        proof {
            self.lemma_handle_count_exit(*old(self), id);
        }
    }

    /// `ref_dec(id)`: a notifier handle to node `id` is dropped. The last
    /// reference may only disappear after the consumer has cleared the
    /// payload — a producer finding it in place would abort — and then frees
    /// the node. No computation is touched.
    pub fn ref_dec(&mut self, id: usize)
        requires
            old(self).wf(),
            0 < id < old(self).nodes@.len(),
            old(self).node_at(id).handles@ >= 1,
        ensures
            final(self).wf(),
            final(self).nodes@.len() == old(self).nodes@.len(),
            final(self).node_at(id).handles@ == old(self).node_at(id).handles@ - 1,
            refs_of(final(self).node_at(id).state) == refs_of(old(self).node_at(id).state) - 1,
            final(self).node_at(id).freed == (refs_of(old(self).node_at(id).state) == 1),
            final(self).len == old(self).len,
            final(self).owner == old(self).owner,
            final(self).chain == old(self).chain,
            final(self).pending == old(self).pending,
            final(self).collection_alive == old(self).collection_alive,
            final(self).parent_wakes == old(self).parent_wakes,
            final(self).inner_ref_count == old(self).inner_ref_count,
            final(self).inner_handles == old(self).inner_handles,
            final(self).submitted == old(self).submitted,
            final(self).finished == old(self).finished,
            final(self).cancelled == old(self).cancelled,
            forall|m: usize|
                m < old(self).nodes@.len() ==> #[trigger] final(self).node_at(m).computation == old(
                    self,
                ).node_at(m).computation,
            forall|m: usize|
                m < old(self).nodes@.len() && m != id ==> #[trigger] final(self).node_at(m) == old(
                    self,
                ).node_at(m),
    {
        proof {
            assert(old(self).node_at(id) == old(self).node_at(id));
            assert(!old(self).node_at(id).freed);
            assert(refs_of(old(self).node_at(id).state) >= 1);
            if refs_of(old(self).node_at(id).state) == 1 {
                assert(old(self).base_ref(id) == 0);
                assert(!old(self).in_owner(id));
                assert(old(self).node_at(id).computation.is_none());
            }
        }
        let mut nd = self.nodes[id];
        nd.handles = Ghost((nd.handles@ - 1) as nat);
        self.nodes.set(id, nd);
        proof {
            assert forall|i: int| 0 <= i < self.chain@.len() implies self.chain_entry_ok(i) by {
                assert(old(self).chain_entry_ok(i));
            }
        }
        self.release(id);
        proof {
            self.lemma_handle_count_exit(*old(self), id);
        }
    }

    /// `clone_raw`: one more handle to the shared head. A count past
    /// MAX_REFS would abort, so it is excluded. No computation is touched.
    pub fn clone_raw(&mut self)
        requires
            old(self).wf(),
            old(self).inner_ref_count >= 1,
            old(self).inner_ref_count < MAX_REFS,
        ensures
            final(self).wf(),
            final(self).inner_ref_count == old(self).inner_ref_count + 1,
            final(self).inner_handles@ == old(self).inner_handles@ + 1,
            final(self).inner_alive,
            *final(self) == (FuturesUnordered {
                inner_ref_count: final(self).inner_ref_count,
                inner_handles: final(self).inner_handles,
                inner_alive: final(self).inner_alive,
                ..*old(self)
            }),
    {
        let ghost pre = *self;
        let old_size = self.inner_ref_count;
        self.inner_ref_count = old_size + 1;
        if old_size >= MAX_REFS {
            // the contract keeps the count under MAX_REFS; the overflow halt
            // is proved unreachable
            proof {
                assert(false);
            }
            abort();
        }
        self.inner_alive = true;
        proof {
            self.inner_handles@ = self.inner_handles@ + 1;
            self.lemma_inner_frame(pre);
        }
    }

    /// `drop_raw`: one handle to the shared head goes away; the holder of
    /// the last reference destroys the shared head in place. No computation
    /// is touched.
    pub fn drop_raw(&mut self)
        requires
            old(self).wf(),
            old(self).inner_handles@ >= 1,
        ensures
            final(self).wf(),
            final(self).inner_ref_count == old(self).inner_ref_count - 1,
            final(self).inner_handles@ == old(self).inner_handles@ - 1,
            final(self).inner_alive == (old(self).inner_ref_count > 1),
            *final(self) == (FuturesUnordered {
                inner_ref_count: final(self).inner_ref_count,
                inner_handles: final(self).inner_handles,
                inner_alive: final(self).inner_alive,
                ..*old(self)
            }),
    {
        let ghost pre = *self;
        let old_size = self.inner_ref_count;
        self.inner_ref_count = old_size - 1;
        if old_size == 1 {
            self.inner_alive = false;
        }
        proof {
            self.inner_handles@ = (self.inner_handles@ - 1) as nat;
            self.lemma_inner_frame(pre);
        }
    }

    /// A producer stalls between the two steps of its enqueue, the injected
    /// pause a test hook uses: the flag is claimed and the head swapped, but
    /// the predecessor link is not written and the parent not yet signalled.
    /// Until `resume_enqueue` completes the link, the consumer observes the
    /// queue as inconsistent.
    pub fn notify_paused(&mut self, id: usize)
        requires
            old(self).wf(),
            old(self).pending.is_none(),
            0 < id < old(self).nodes@.len(),
            old(self).node_at(id).handles@ >= 1,
            old(self).inner_handles@ >= 1,
            !is_queued(old(self).node_at(id).state),
        ensures
            final(self).wf(),
            final(self).pending == Some(
                PendingEnqueue { prev: old(self).head_readiness, node: id },
            ),
            final(self).chain == old(self).chain,
            final(self).in_ready(id),
            final(self).parent_wakes == old(self).parent_wakes,
            final(self).len == old(self).len,
            final(self).owner == old(self).owner,
            final(self).collection_alive == old(self).collection_alive,
            final(self).submitted == old(self).submitted,
            final(self).finished == old(self).finished,
            final(self).cancelled == old(self).cancelled,
            final(self).inner_ref_count == old(self).inner_ref_count,
            final(self).inner_handles == old(self).inner_handles,
            forall|m: usize|
                m < old(self).nodes@.len() ==> #[trigger] final(self).node_at(m).computation == old(
                    self,
                ).node_at(m).computation && final(self).node_at(m).freed == old(self).node_at(
                    m,
                ).freed && final(self).node_at(m).handles == old(self).node_at(m).handles,
    {
        proof {
            lemma_set_queued(old(self).node_at(id).state);
            assert(old(self).node_at(id) == old(self).node_at(id));
            assert(!old(self).node_at(id).freed);
            assert(old(self).node_at(id).computation.is_some());
            assert(old(self).in_owner(id)) by {
                if !old(self).in_owner(id) {
                    assert(old(self).node_at(id).computation.is_none());
                }
            }
            assert(!old(self).in_chain(id)) by {
                if old(self).in_chain(id) {
                    let j = crate::seqs::lemma_contains_index(old(self).chain@, id);
                    assert(is_queued(old(self).node_at(#[trigger] old(self).chain@[j]).state));
                }
            }
        }
        let mut nd = self.nodes[id];
        let prev_state = nd.state;
        nd.state = prev_state | QUEUED;
        nd.next_readiness = NIL;
        self.nodes.set(id, nd);
        let prev = self.head_readiness;
        self.head_readiness = id;
        self.pending = Some(PendingEnqueue { prev, node: id });
        proof {
            self.lemma_pause_exit(*old(self), id);
        }
    }

    /// The stalled producer of `notify_paused` continues: it writes the
    /// predecessor link, making its node reachable, and signals the parent
    /// task. The queue is consistent again.
    pub fn resume_enqueue(&mut self)
        requires
            old(self).wf(),
            old(self).pending.is_some(),
        ensures
            final(self).wf(),
            final(self).pending.is_none(),
            final(self).chain@ == old(self).chain@.push(old(self).pending.unwrap().node),
            final(self).parent_wakes == bumped(old(self).parent_wakes),
            final(self).len == old(self).len,
            final(self).owner == old(self).owner,
            final(self).collection_alive == old(self).collection_alive,
            final(self).submitted == old(self).submitted,
            final(self).finished == old(self).finished,
            final(self).cancelled == old(self).cancelled,
            final(self).inner_ref_count == old(self).inner_ref_count,
            final(self).inner_handles == old(self).inner_handles,
            forall|m: usize|
                m < old(self).nodes@.len() ==> #[trigger] final(self).node_at(m).computation == old(
                    self,
                ).node_at(m).computation && final(self).node_at(m).freed == old(self).node_at(
                    m,
                ).freed && final(self).node_at(m).handles == old(self).node_at(m).handles,
    {
        let pe = self.pending.unwrap();
        proof {
            assert(self.chain_entry_ok(self.chain@.len() - 1));
        }
        self.parent_wakes = bump(self.parent_wakes);
        self.pending = None;
        let mut pv = self.nodes[pe.prev];
        pv.next_readiness = pe.node;
        self.nodes.set(pe.prev, pv);
        proof {
            self.chain@ = self.chain@.push(pe.node);
            self.lemma_resume_exit(*old(self), pe);
        }
    }

    /// A reference-count step on one node — the count and the ghost handle
    /// tally moved together, nothing else of the node but possibly its
    /// deallocation changed — preserves the whole invariant.
    proof fn lemma_handle_count_exit(&self, pre: FuturesUnordered, id: usize)
        requires
            pre.wf(),
            0 < id < pre.nodes@.len(),
            !pre.node_at(id).freed,
            self.nodes@.len() == pre.nodes@.len(),
            forall|m: int|
                0 <= m < pre.nodes@.len() && m != id ==> #[trigger] self.nodes@[m] == pre.nodes@[m],
            self.node_at(id).computation == pre.node_at(id).computation,
            self.node_at(id).next_all == pre.node_at(id).next_all,
            self.node_at(id).prev_all == pre.node_at(id).prev_all,
            self.node_at(id).next_readiness == pre.node_at(id).next_readiness,
            is_queued(self.node_at(id).state) == is_queued(pre.node_at(id).state),
            refs_of(self.node_at(id).state) as int - refs_of(pre.node_at(id).state) as int == self.node_at(
                id,
            ).handles@ as int - pre.node_at(id).handles@ as int,
            self.node_at(id).freed == (refs_of(self.node_at(id).state) == 0),
            self.len == pre.len,
            self.head_all == pre.head_all,
            self.head_readiness == pre.head_readiness,
            self.tail_readiness == pre.tail_readiness,
            self.pending == pre.pending,
            self.owner == pre.owner,
            self.chain == pre.chain,
            self.collection_alive == pre.collection_alive,
            self.inner_ref_count == pre.inner_ref_count,
            self.inner_alive == pre.inner_alive,
            self.inner_handles == pre.inner_handles,
            self.live_out == pre.live_out,
            self.submitted == pre.submitted,
            self.finished == pre.finished,
            self.cancelled == pre.cancelled,
        ensures
            self.wf(),
    {
        assert(pre.node_at(id) == pre.node_at(id));
        assert(refs_of(pre.node_at(id).state) as nat == pre.base_ref(id) + pre.node_at(
            id,
        ).handles@);
        assert(self.node_at(0) == pre.node_at(0));
        assert(self.arena_ok());
        let freed_now = self.node_at(id).freed;
        if freed_now {
            assert(pre.base_ref(id) == 0);
            assert(!pre.in_owner(id));
            assert(!pre.in_ready(id));
        }
        assert forall|i: int| 0 <= i < self.owner@.len() implies self.owner_entry_ok(i) by {
            assert(pre.owner_entry_ok(i));
            if self.owner@[i] != id {
                assert(self.node_at(self.owner@[i]) == pre.node_at(pre.owner@[i]));
            } else {
                assert(pre.in_owner(id)) by {
                    assert(pre.owner@.contains(pre.owner@[i]));
                }
            }
        }
        assert(self.owner_links_ok());
        assert forall|i: int|
            0 <= i < self.owner@.len() implies self.node_at(
            #[trigger] self.owner@[i],
        ).computation.is_some() by {
            assert(pre.owner_entry_ok(i));
            assert(pre.node_at(pre.owner@[i]).computation.is_some());
            if self.owner@[i] != id {
                assert(self.node_at(self.owner@[i]) == pre.node_at(pre.owner@[i]));
            }
        }
        assert forall|m: usize|
            0 < m < self.nodes@.len() && !self.node_at(m).freed && !self.in_owner(m) implies {
            &&& #[trigger] self.node_at(m).computation.is_none()
            &&& self.node_at(m).next_all == NIL
            &&& self.node_at(m).prev_all == NIL
        } by {
            assert(pre.node_at(m) == pre.node_at(m));
            if m != id {
                assert(self.node_at(m) == pre.node_at(m));
            }
            assert(self.in_owner(m) == pre.in_owner(m));
        }
        assert(self.owner_comp_ok());
        assert forall|i: int| 0 <= i < self.chain@.len() implies self.chain_entry_ok(i) by {
            assert(pre.chain_entry_ok(i));
            if self.chain@[i] != id {
                assert(self.node_at(self.chain@[i]) == pre.node_at(pre.chain@[i]));
            } else {
                assert(pre.in_chain(id)) by {
                    assert(pre.chain@.contains(pre.chain@[i]));
                }
                assert(pre.base_ref(id) == 1);
                assert(refs_of(self.node_at(id).state) >= 1);
            }
        }
        match pre.pending {
            Some(pe) => {
                if pe.node == id {
                    assert(pre.base_ref(id) == 1);
                    assert(refs_of(self.node_at(id).state) >= 1);
                }
            },
            None => {},
        }
        assert(self.chain_ok());
        assert forall|i: int| 0 <= i < self.chain@.len() implies is_queued(
            self.node_at(#[trigger] self.chain@[i]).state,
        ) by {
            assert(pre.chain_entry_ok(i));
            assert(is_queued(pre.node_at(pre.chain@[i]).state));
            if self.chain@[i] != id {
                assert(self.node_at(self.chain@[i]) == pre.node_at(pre.chain@[i]));
            }
        }
        assert forall|m: usize|
            0 < m < self.nodes@.len() && !self.node_at(m).freed && self.node_at(
                m,
            ).computation.is_none() implies is_queued(#[trigger] self.node_at(m).state) by {
            assert(pre.node_at(m) == pre.node_at(m));
            if m != id {
                assert(self.node_at(m) == pre.node_at(m));
            }
        }
        assert forall|m: usize|
            0 < m < self.nodes@.len() && !self.node_at(m).freed && self.node_at(
                m,
            ).computation.is_some() && is_queued(self.node_at(m).state) implies self.in_ready(
            m,
        ) by {
            assert(pre.node_at(m) == pre.node_at(m));
            if m != id {
                assert(self.node_at(m) == pre.node_at(m));
            }
            assert(pre.in_ready(m) == self.in_ready(m));
        }
        assert(self.flags_ok());
        assert forall|m: usize| 0 < m < self.nodes@.len() implies {
            &&& (!self.node_at(m).freed ==> self.node_at(m).refs() as nat == self.base_ref(m)
                + self.node_at(m).handles@ && self.node_at(m).refs() >= 1)
            &&& (self.node_at(m).freed ==> self.node_at(m).handles@ == 0 && !self.in_owner(m)
                && !self.in_ready(m))
        } by {
            assert(pre.node_at(m) == pre.node_at(m));
            if m != id {
                assert(self.node_at(m) == pre.node_at(m));
            }
            assert(self.in_owner(m) == pre.in_owner(m));
            assert(self.in_ready(m) == pre.in_ready(m));
            assert(self.base_ref(m) == pre.base_ref(m));
            if m == id && !freed_now {
                assert(self.node_at(id).refs() as nat == self.base_ref(id) + self.node_at(
                    id,
                ).handles@);
            }
        }
        assert(self.counts_ok());
        assert forall|i: int|
            0 <= i < self.owner@.len() implies #[trigger] self.owner@[i] < pre.nodes@.len()
                && self.owner@[i] < self.nodes@.len()
                && self.nodes@[self.owner@[i] as int].computation
                == pre.nodes@[self.owner@[i] as int].computation by {
            assert(pre.owner_entry_ok(i));
        }
        crate::seqs::lemma_outcomes_frame(pre.nodes@, self.nodes@, self.owner@);
        assert(self.live_out_ok());
        assert(self.sum_ok());
        assert(self.inner_ok());
        assert(self.collection_ok());
    }

    /// A reference-count step on the shared head alone preserves the whole
    /// invariant, given its own count stays balanced.
    proof fn lemma_inner_frame(&self, pre: FuturesUnordered)
        requires
            pre.wf(),
            self.inner_ok(),
            self.nodes == pre.nodes,
            self.len == pre.len,
            self.head_all == pre.head_all,
            self.head_readiness == pre.head_readiness,
            self.tail_readiness == pre.tail_readiness,
            self.pending == pre.pending,
            self.collection_alive == pre.collection_alive,
            self.parent_registered == pre.parent_registered,
            self.parent_wakes == pre.parent_wakes,
            self.owner == pre.owner,
            self.chain == pre.chain,
            self.live_out == pre.live_out,
            self.submitted == pre.submitted,
            self.finished == pre.finished,
            self.cancelled == pre.cancelled,
        ensures
            self.wf(),
    {
        assert(self.node_at(0) == pre.node_at(0));
        assert forall|i: int| 0 <= i < self.owner@.len() implies self.owner_entry_ok(i) by {
            assert(pre.owner_entry_ok(i));
            assert(self.node_at(self.owner@[i]) == pre.node_at(pre.owner@[i]));
        }
        assert forall|i: int|
            0 <= i < self.owner@.len() implies self.node_at(
            #[trigger] self.owner@[i],
        ).computation.is_some() by {
            assert(pre.owner_entry_ok(i));
            assert(pre.node_at(pre.owner@[i]).computation.is_some());
            assert(self.node_at(self.owner@[i]) == pre.node_at(pre.owner@[i]));
        }
        assert forall|m: usize|
            0 < m < self.nodes@.len() && !self.node_at(m).freed && !self.in_owner(m) implies {
            &&& #[trigger] self.node_at(m).computation.is_none()
            &&& self.node_at(m).next_all == NIL
            &&& self.node_at(m).prev_all == NIL
        } by {
            assert(pre.node_at(m) == pre.node_at(m));
            assert(self.node_at(m) == pre.node_at(m));
            assert(self.in_owner(m) == pre.in_owner(m));
        }
        assert forall|i: int| 0 <= i < self.chain@.len() implies self.chain_entry_ok(i) by {
            assert(pre.chain_entry_ok(i));
            assert(self.node_at(self.chain@[i]) == pre.node_at(pre.chain@[i]));
        }
        assert forall|i: int| 0 <= i < self.chain@.len() implies is_queued(
            self.node_at(#[trigger] self.chain@[i]).state,
        ) by {
            assert(pre.chain_entry_ok(i));
            assert(is_queued(pre.node_at(pre.chain@[i]).state));
            assert(self.node_at(self.chain@[i]) == pre.node_at(pre.chain@[i]));
        }
        assert forall|m: usize|
            0 < m < self.nodes@.len() && !self.node_at(m).freed && self.node_at(
                m,
            ).computation.is_none() implies is_queued(#[trigger] self.node_at(m).state) by {
            assert(pre.node_at(m) == pre.node_at(m));
            assert(self.node_at(m) == pre.node_at(m));
        }
        assert forall|m: usize|
            0 < m < self.nodes@.len() && !self.node_at(m).freed && self.node_at(
                m,
            ).computation.is_some() && is_queued(self.node_at(m).state) implies self.in_ready(
            m,
        ) by {
            assert(pre.node_at(m) == pre.node_at(m));
            assert(self.node_at(m) == pre.node_at(m));
            assert(pre.in_ready(m) == self.in_ready(m));
        }
        assert(self.flags_ok());
        assert forall|m: usize| 0 < m < self.nodes@.len() implies {
            &&& (!self.node_at(m).freed ==> self.node_at(m).refs() as nat == self.base_ref(m)
                + self.node_at(m).handles@ && self.node_at(m).refs() >= 1)
            &&& (self.node_at(m).freed ==> self.node_at(m).handles@ == 0 && !self.in_owner(m)
                && !self.in_ready(m))
        } by {
            assert(pre.node_at(m) == pre.node_at(m));
            assert(self.node_at(m) == pre.node_at(m));
            assert(self.in_owner(m) == pre.in_owner(m));
            assert(self.in_ready(m) == pre.in_ready(m));
            assert(self.base_ref(m) == pre.base_ref(m));
        }
        assert(self.counts_ok());
        assert(self.live_out@ == outcomes_of(self.nodes@, self.owner@));
    }

    /// After a producer claimed the flag and swapped the head but paused
    /// before the link, the invariant holds with the pending producer
    /// recorded.
    proof fn lemma_pause_exit(&self, pre: FuturesUnordered, id: usize)
        requires
            pre.wf(),
            pre.pending.is_none(),
            0 < id < pre.nodes@.len(),
            !pre.node_at(id).freed,
            !is_queued(pre.node_at(id).state),
            pre.in_owner(id),
            !pre.in_chain(id),
            pre.node_at(id).computation.is_some(),
            self.nodes@.len() == pre.nodes@.len(),
            forall|m: int|
                0 <= m < pre.nodes@.len() && m != id ==> #[trigger] self.nodes@[m] == pre.nodes@[m],
            self.node_at(id).state == (pre.node_at(id).state | QUEUED),
            self.node_at(id).computation == pre.node_at(id).computation,
            self.node_at(id).freed == pre.node_at(id).freed,
            self.node_at(id).handles == pre.node_at(id).handles,
            self.node_at(id).next_all == pre.node_at(id).next_all,
            self.node_at(id).prev_all == pre.node_at(id).prev_all,
            self.node_at(id).next_readiness == NIL,
            self.head_readiness == id,
            self.pending == Some(PendingEnqueue { prev: pre.head_readiness, node: id }),
            self.owner == pre.owner,
            self.chain == pre.chain,
            self.head_all == pre.head_all,
            self.tail_readiness == pre.tail_readiness,
            self.len == pre.len,
            self.collection_alive == pre.collection_alive,
            self.inner_ref_count == pre.inner_ref_count,
            self.inner_alive == pre.inner_alive,
            self.inner_handles == pre.inner_handles,
            self.live_out == pre.live_out,
            self.submitted == pre.submitted,
            self.finished == pre.finished,
            self.cancelled == pre.cancelled,
        ensures
            self.wf(),
            self.in_ready(id),
    {
        lemma_set_queued(pre.node_at(id).state);
        assert(pre.node_at(id) == pre.node_at(id));
        assert(self.owner@ == pre.owner@);
        assert(self.in_owner(id)) by {
            assert(pre.owner@.contains(id));
        }
        assert(self.node_at(0) == pre.node_at(0));
        assert(self.arena_ok());
        assert forall|i: int| 0 <= i < self.owner@.len() implies self.owner_entry_ok(i) by {
            assert(pre.owner_entry_ok(i));
            if self.owner@[i] != id {
                assert(self.node_at(self.owner@[i]) == pre.node_at(pre.owner@[i]));
            }
        }
        assert(self.owner_links_ok());
        assert forall|i: int|
            0 <= i < self.owner@.len() implies self.node_at(
            #[trigger] self.owner@[i],
        ).computation.is_some() by {
            assert(pre.owner_entry_ok(i));
            assert(pre.node_at(pre.owner@[i]).computation.is_some());
            if self.owner@[i] != id {
                assert(self.node_at(self.owner@[i]) == pre.node_at(pre.owner@[i]));
            }
        }
        assert forall|m: usize|
            0 < m < self.nodes@.len() && !self.node_at(m).freed && !self.in_owner(m) implies {
            &&& #[trigger] self.node_at(m).computation.is_none()
            &&& self.node_at(m).next_all == NIL
            &&& self.node_at(m).prev_all == NIL
        } by {
            assert(m != id) by {
                if m == id {
                    assert(self.in_owner(id));
                }
            }
            assert(pre.node_at(m) == pre.node_at(m));
            assert(self.node_at(m) == pre.node_at(m));
            assert(self.in_owner(m) == pre.in_owner(m));
        }
        assert(self.owner_comp_ok());
        assert forall|i: int| 0 <= i < self.chain@.len() implies self.chain_entry_ok(i) by {
            assert(pre.chain_entry_ok(i));
            assert(self.chain@[i] != id) by {
                assert(pre.chain@.contains(pre.chain@[i]));
            }
            assert(self.node_at(self.chain@[i]) == pre.node_at(pre.chain@[i]));
        }
        assert(self.chain@.last() == pre.head_readiness);
        assert(self.chain_ok());
        assert forall|i: int| 0 <= i < self.chain@.len() implies is_queued(
            self.node_at(#[trigger] self.chain@[i]).state,
        ) by {
            assert(pre.chain_entry_ok(i));
            assert(is_queued(pre.node_at(pre.chain@[i]).state));
            assert(self.chain@[i] != id) by {
                assert(pre.chain@.contains(pre.chain@[i]));
            }
            assert(self.node_at(self.chain@[i]) == pre.node_at(pre.chain@[i]));
        }
        assert forall|m: usize|
            0 < m < self.nodes@.len() && !self.node_at(m).freed && self.node_at(
                m,
            ).computation.is_none() implies is_queued(#[trigger] self.node_at(m).state) by {
            assert(m != id) by {
                if m == id {
                    assert(self.node_at(id).computation.is_some());
                }
            }
            assert(pre.node_at(m) == pre.node_at(m));
            assert(self.node_at(m) == pre.node_at(m));
        }
        assert forall|m: usize|
            0 < m < self.nodes@.len() && !self.node_at(m).freed && self.node_at(
                m,
            ).computation.is_some() && is_queued(self.node_at(m).state) implies self.in_ready(
            m,
        ) by {
            if m != id {
                assert(pre.node_at(m) == pre.node_at(m));
                assert(self.node_at(m) == pre.node_at(m));
                assert(pre.in_ready(m) ==> self.in_ready(m));
            }
        }
        assert(self.flags_ok());
        assert forall|m: usize| 0 < m < self.nodes@.len() implies {
            &&& (!self.node_at(m).freed ==> self.node_at(m).refs() as nat == self.base_ref(m)
                + self.node_at(m).handles@ && self.node_at(m).refs() >= 1)
            &&& (self.node_at(m).freed ==> self.node_at(m).handles@ == 0 && !self.in_owner(m)
                && !self.in_ready(m))
        } by {
            assert(pre.node_at(m) == pre.node_at(m));
            if m != id {
                assert(self.node_at(m) == pre.node_at(m));
                assert(self.in_owner(m) == pre.in_owner(m));
                assert(self.in_chain(m) == pre.in_chain(m));
                assert(self.base_ref(m) == pre.base_ref(m));
            } else {
                assert(self.base_ref(id) == 1 && pre.base_ref(id) == 1);
                assert(refs_of(self.node_at(id).state) == refs_of(pre.node_at(id).state));
            }
        }
        assert(self.counts_ok());
        assert forall|i: int|
            0 <= i < self.owner@.len() implies #[trigger] self.owner@[i] < pre.nodes@.len()
                && self.owner@[i] < self.nodes@.len()
                && self.nodes@[self.owner@[i] as int].computation
                == pre.nodes@[self.owner@[i] as int].computation by {
            assert(pre.owner_entry_ok(i));
        }
        crate::seqs::lemma_outcomes_frame(pre.nodes@, self.nodes@, self.owner@);
        assert(self.live_out_ok());
        assert(self.sum_ok());
        assert(self.inner_ok());
        assert(self.collection_ok());
    }

    /// After the stalled producer wrote the missing link, the invariant
    /// holds with its node an ordinary chain member.
    proof fn lemma_resume_exit(&self, pre: FuturesUnordered, pe: PendingEnqueue)
        requires
            pre.wf(),
            pre.pending == Some(pe),
            self.nodes@.len() == pre.nodes@.len(),
            forall|m: int|
                0 <= m < pre.nodes@.len() && m != pe.prev ==> #[trigger] self.nodes@[m]
                    == pre.nodes@[m],
            pe.prev < pre.nodes@.len(),
            self.node_at(pe.prev).next_readiness == pe.node,
            self.node_at(pe.prev).computation == pre.node_at(pe.prev).computation,
            self.node_at(pe.prev).state == pre.node_at(pe.prev).state,
            self.node_at(pe.prev).freed == pre.node_at(pe.prev).freed,
            self.node_at(pe.prev).handles == pre.node_at(pe.prev).handles,
            self.node_at(pe.prev).next_all == pre.node_at(pe.prev).next_all,
            self.node_at(pe.prev).prev_all == pre.node_at(pe.prev).prev_all,
            self.chain@ == pre.chain@.push(pe.node),
            self.pending.is_none(),
            self.head_readiness == pre.head_readiness,
            self.tail_readiness == pre.tail_readiness,
            self.owner == pre.owner,
            self.head_all == pre.head_all,
            self.len == pre.len,
            self.collection_alive == pre.collection_alive,
            self.inner_ref_count == pre.inner_ref_count,
            self.inner_alive == pre.inner_alive,
            self.inner_handles == pre.inner_handles,
            self.live_out == pre.live_out,
            self.submitted == pre.submitted,
            self.finished == pre.finished,
            self.cancelled == pre.cancelled,
        ensures
            self.wf(),
    {
        let c = pre.chain@;
        let cn = self.chain@;
        assert(c.last() == pe.prev);
        assert(pre.chain_entry_ok(c.len() - 1));
        crate::seqs::lemma_push_contains(c, pe.node);
        assert(pe.node != pe.prev) by {
            assert(c.contains(pe.prev)) by {
                assert(c[c.len() - 1] == pe.prev);
            }
        }
        assert(self.node_at(0) == pre.node_at(0) || self.node_at(pe.prev).state == pre.node_at(
            pe.prev,
        ).state);
        assert(self.arena_ok()) by {
            if pe.prev == 0 {
                assert(self.node_at(0).state == pre.node_at(0).state);
                assert(self.node_at(0).computation == pre.node_at(0).computation);
                assert(self.node_at(0).next_all == pre.node_at(0).next_all);
                assert(self.node_at(0).prev_all == pre.node_at(0).prev_all);
                assert(self.node_at(0).handles == pre.node_at(0).handles);
                assert(self.node_at(0).freed == pre.node_at(0).freed);
            } else {
                assert(self.node_at(0) == pre.node_at(0));
            }
        }
        assert forall|i: int| 0 <= i < self.owner@.len() implies self.owner_entry_ok(i) by {
            assert(pre.owner_entry_ok(i));
            if self.owner@[i] != pe.prev {
                assert(self.node_at(self.owner@[i]) == pre.node_at(pre.owner@[i]));
            }
        }
        assert(self.owner_links_ok());
        assert forall|i: int|
            0 <= i < self.owner@.len() implies self.node_at(
            #[trigger] self.owner@[i],
        ).computation.is_some() by {
            assert(pre.owner_entry_ok(i));
            assert(pre.node_at(pre.owner@[i]).computation.is_some());
        }
        assert forall|m: usize|
            0 < m < self.nodes@.len() && !self.node_at(m).freed && !self.in_owner(m) implies {
            &&& #[trigger] self.node_at(m).computation.is_none()
            &&& self.node_at(m).next_all == NIL
            &&& self.node_at(m).prev_all == NIL
        } by {
            assert(pre.node_at(m) == pre.node_at(m));
            assert(self.node_at(m).freed == pre.node_at(m).freed);
            assert(self.node_at(m).computation == pre.node_at(m).computation);
            assert(self.node_at(m).next_all == pre.node_at(m).next_all);
            assert(self.node_at(m).prev_all == pre.node_at(m).prev_all);
            assert(self.in_owner(m) == pre.in_owner(m));
        }
        assert(self.owner_comp_ok());
        assert forall|i: int| 0 <= i < cn.len() implies self.chain_entry_ok(i) by {
            if i < c.len() {
                assert(pre.chain_entry_ok(i));
                if cn[i] != pe.prev {
                    assert(self.node_at(cn[i]) == pre.node_at(c[i]));
                }
            } else {
                assert(cn[i] == pe.node);
                assert(self.node_at(pe.node) == pre.node_at(pe.node));
            }
        }
        assert forall|i: int, j: int| 0 <= i < j < cn.len() implies cn[i] != cn[j] by {
            if j == c.len() {
                assert(c.contains(c[i]));
            }
        }
        assert(self.chain_ok());
        assert forall|i: int| 0 <= i < cn.len() implies is_queued(
            self.node_at(#[trigger] cn[i]).state,
        ) by {
            if i < c.len() {
                assert(pre.chain_entry_ok(i));
                assert(is_queued(pre.node_at(pre.chain@[i]).state));
                assert(self.node_at(cn[i]).state == pre.node_at(c[i]).state);
            } else {
                assert(cn[i] == pe.node);
                assert(is_queued(pre.node_at(pe.node).state));
                assert(self.node_at(pe.node) == pre.node_at(pe.node));
            }
        }
        assert forall|m: usize|
            0 < m < self.nodes@.len() && !self.node_at(m).freed && self.node_at(
                m,
            ).computation.is_none() implies is_queued(#[trigger] self.node_at(m).state) by {
            assert(pre.node_at(m) == pre.node_at(m));
            assert(self.node_at(m).freed == pre.node_at(m).freed);
            assert(self.node_at(m).computation == pre.node_at(m).computation);
            assert(self.node_at(m).state == pre.node_at(m).state);
        }
        assert forall|m: usize|
            0 < m < self.nodes@.len() && !self.node_at(m).freed && self.node_at(
                m,
            ).computation.is_some() && is_queued(self.node_at(m).state) implies self.in_ready(
            m,
        ) by {
            assert(pre.node_at(m) == pre.node_at(m));
            assert(self.node_at(m).freed == pre.node_at(m).freed);
            assert(self.node_at(m).computation == pre.node_at(m).computation);
            assert(self.node_at(m).state == pre.node_at(m).state);
            assert(pre.in_ready(m));
            if pre.in_chain(m) {
                let j = crate::seqs::lemma_contains_index(c, m);
                assert(cn[j] == m);
                assert(cn.contains(m));
            } else {
                assert(m == pe.node);
                assert(cn[cn.len() - 1] == pe.node);
                assert(cn.contains(m));
            }
        }
        assert(self.flags_ok());
        assert forall|m: usize| 0 < m < self.nodes@.len() implies {
            &&& (!self.node_at(m).freed ==> self.node_at(m).refs() as nat == self.base_ref(m)
                + self.node_at(m).handles@ && self.node_at(m).refs() >= 1)
            &&& (self.node_at(m).freed ==> self.node_at(m).handles@ == 0 && !self.in_owner(m)
                && !self.in_ready(m))
        } by {
            assert(pre.node_at(m) == pre.node_at(m));
            assert(self.node_at(m).freed == pre.node_at(m).freed);
            assert(self.node_at(m).state == pre.node_at(m).state);
            assert(self.node_at(m).handles == pre.node_at(m).handles);
            assert(self.in_owner(m) == pre.in_owner(m));
            assert(self.in_ready(m) == pre.in_ready(m));
            assert(self.base_ref(m) == pre.base_ref(m));
        }
        assert(self.counts_ok());
        assert forall|i: int|
            0 <= i < self.owner@.len() implies #[trigger] self.owner@[i] < pre.nodes@.len()
                && self.owner@[i] < self.nodes@.len()
                && self.nodes@[self.owner@[i] as int].computation
                == pre.nodes@[self.owner@[i] as int].computation by {
            assert(pre.owner_entry_ok(i));
        }
        crate::seqs::lemma_outcomes_frame(pre.nodes@, self.nodes@, self.owner@);
        assert(self.live_out_ok());
        assert(self.sum_ok());
        assert(self.inner_ok());
        assert(self.collection_ok());
    }
}

} // verus!
