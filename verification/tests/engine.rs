use futures_unordered::Computation;
use futures_unordered::FuturesUnordered;
use futures_unordered::Outcome;
use futures_unordered::PollResult;

fn ready(v: u64) -> Computation {
    Computation::new(0, Outcome::Value(v))
}

fn owner_count(fu: &FuturesUnordered) -> usize {
    let mut count: usize = 0;
    let mut cur: usize = fu.head_all;
    while cur != usize::MAX {
        count += 1;
        cur = fu.nodes[cur].next_all;
    }
    count
}

#[test]
fn empty_collection_polls_ready_none() {
    let mut fu = FuturesUnordered::new();
    assert!(fu.is_empty());
    assert_eq!(fu.len(), 0);
    assert_eq!(fu.poll(), PollResult::ReadyNone);
    assert_eq!(fu.poll(), PollResult::ReadyNone);
}

#[test]
fn already_complete_yields_on_first_poll() {
    let mut fu = FuturesUnordered::new();
    fu.push(ready(42));
    assert_eq!(fu.len(), 1);
    assert_eq!(fu.poll(), PollResult::ReadySome(42));
    assert_eq!(fu.len(), 0);
    assert_eq!(fu.poll(), PollResult::ReadyNone);
}

#[test]
fn ordered_ready_fan_in() {
    let mut fu = FuturesUnordered::new();
    fu.push(ready(1));
    fu.push(ready(2));
    fu.push(ready(3));
    let mut got = Vec::new();
    let mut lens = Vec::new();
    for _ in 0..3 {
        match fu.poll() {
            PollResult::ReadySome(v) => got.push(v),
            other => panic!("expected a value, got {:?}", other),
        }
        lens.push(fu.len());
    }
    got.sort();
    assert_eq!(got, vec![1, 2, 3]);
    assert_eq!(lens, vec![2, 1, 0]);
    assert_eq!(fu.poll(), PollResult::ReadyNone);
}

#[test]
fn error_surfaces_verbatim() {
    let mut fu = FuturesUnordered::new();
    fu.push(Computation::new(0, Outcome::Fault(5)));
    assert_eq!(fu.poll(), PollResult::Fault(5));
    assert_eq!(fu.len(), 0);
    assert_eq!(fu.poll(), PollResult::ReadyNone);
}

#[test]
fn delayed_ready_via_external_notify() {
    let mut fu = FuturesUnordered::new();
    fu.push(Computation::new(1, Outcome::Value(7)));
    assert_eq!(fu.poll(), PollResult::NotReady);
    // another thread holds a waker: a node reference plus a shared-head one
    fu.ref_inc(1);
    fu.clone_raw();
    let wakes = fu.parent_wakes;
    fu.notify(1);
    assert_eq!(fu.parent_wakes, wakes + 1);
    assert_eq!(fu.poll(), PollResult::ReadySome(7));
    assert_eq!(fu.poll(), PollResult::ReadyNone);
    assert!(!fu.nodes[1].freed);
    fu.ref_dec(1);
    assert!(fu.nodes[1].freed);
    fu.drop_raw();
    fu.destroy();
    assert!(fu.nodes[0].freed);
}

#[test]
fn repeated_notify_enqueues_once() {
    let mut fu = FuturesUnordered::new();
    fu.push(ready(9));
    fu.ref_inc(1);
    fu.clone_raw();
    let wakes = fu.parent_wakes;
    let head = fu.head_readiness;
    // the node is already queued from the push: no flip, no wake, no enqueue
    fu.notify(1);
    fu.notify(1);
    fu.notify(1);
    assert_eq!(fu.parent_wakes, wakes);
    assert_eq!(fu.head_readiness, head);
    assert_eq!(fu.poll(), PollResult::ReadySome(9));
    assert_eq!(fu.poll(), PollResult::ReadyNone);
    fu.ref_dec(1);
    fu.drop_raw();
}

#[test]
fn notify_during_poll_revisits_in_same_call() {
    let mut fu = FuturesUnordered::new();
    fu.push(Computation { remaining: 2, self_notify: true, outcome: Outcome::Value(11) });
    // the computation re-arms itself on every not-ready report, so one call
    // of poll keeps revisiting it until it completes
    assert_eq!(fu.poll(), PollResult::ReadySome(11));
    assert_eq!(fu.len(), 0);
    assert_eq!(fu.poll(), PollResult::ReadyNone);
}

#[test]
fn cancellation_via_drop_frees_each_node_once() {
    let mut fu = FuturesUnordered::new();
    fu.push(Computation::new(1, Outcome::Value(1)));
    fu.push(Computation::new(1, Outcome::Value(2)));
    fu.push(Computation::new(1, Outcome::Value(3)));
    assert_eq!(fu.poll(), PollResult::NotReady);
    for id in 1..4 {
        fu.ref_inc(id);
    }
    fu.clone_raw();
    fu.destroy();
    for id in 1..4 {
        // payload cleared, node kept alive by its outstanding handle
        assert!(fu.nodes[id].computation.is_none());
        assert!(!fu.nodes[id].freed);
    }
    // late notifications on released nodes are harmless
    fu.notify(1);
    fu.notify(2);
    for id in 1..4 {
        fu.ref_dec(id);
        assert!(fu.nodes[id].freed);
    }
    fu.drop_raw();
    for id in 0..4 {
        assert!(fu.nodes[id].freed);
    }
}

#[test]
fn stress_fan_in_counts_every_value_once() {
    let mut fu = FuturesUnordered::new();
    let producers: u64 = 64;
    let per_producer: u64 = 200;
    let total = (producers * per_producer) as usize;
    let mut seen = vec![false; total];
    let mut yielded: usize = 0;
    for p in 0..producers {
        for i in 0..per_producer {
            fu.push(ready(p * per_producer + i));
        }
        loop {
            match fu.poll() {
                PollResult::ReadySome(v) => {
                    assert!(!seen[v as usize], "value {} delivered twice", v);
                    seen[v as usize] = true;
                    yielded += 1;
                }
                PollResult::ReadyNone => break,
                other => panic!("unexpected {:?}", other),
            }
        }
    }
    assert_eq!(yielded, total);
    assert!(seen.iter().all(|s| *s));
    assert_eq!(fu.poll(), PollResult::ReadyNone);
}

#[test]
fn inconsistent_queue_is_retried_after_the_producer_finishes() {
    let mut fu = FuturesUnordered::new();
    fu.push(Computation::new(1, Outcome::Value(21)));
    fu.push(Computation::new(1, Outcome::Value(22)));
    assert_eq!(fu.poll(), PollResult::NotReady);
    fu.ref_inc(1);
    fu.ref_inc(2);
    fu.clone_raw();
    fu.notify(2);
    // a producer stalls between the head swap and the predecessor link
    fu.notify_paused(1);
    let wakes = fu.parent_wakes;
    assert_eq!(fu.poll(), PollResult::NotReady);
    // the consumer observed the inconsistency and woke itself
    assert_eq!(fu.parent_wakes, wakes + 1);
    fu.resume_enqueue();
    assert_eq!(fu.poll(), PollResult::ReadySome(22));
    assert_eq!(fu.poll(), PollResult::ReadySome(21));
    assert_eq!(fu.poll(), PollResult::ReadyNone);
    fu.ref_dec(1);
    fu.ref_dec(2);
    fu.drop_raw();
}

#[test]
fn length_matches_owner_set_membership() {
    let mut fu = FuturesUnordered::new();
    assert_eq!(owner_count(&fu), fu.len());
    fu.push(ready(1));
    fu.push(Computation::new(3, Outcome::Value(2)));
    fu.push(ready(3));
    assert_eq!(owner_count(&fu), fu.len());
    let _ = fu.poll();
    assert_eq!(owner_count(&fu), fu.len());
    let _ = fu.poll();
    assert_eq!(owner_count(&fu), fu.len());
}

#[test]
fn yielded_multiset_matches_submitted() {
    let mut fu = FuturesUnordered::new();
    let submitted = vec![4u64, 4, 9, 1, 7];
    for v in &submitted {
        fu.push(ready(*v));
    }
    let mut got = Vec::new();
    loop {
        match fu.poll() {
            PollResult::ReadySome(v) => got.push(v),
            PollResult::ReadyNone => break,
            other => panic!("unexpected {:?}", other),
        }
    }
    let mut want = submitted.clone();
    want.sort();
    got.sort();
    assert_eq!(got, want);
}

#[test]
fn drained_collection_reports_ready_none() {
    let mut fu = FuturesUnordered::new();
    for v in 0..5u64 {
        fu.push(ready(v));
    }
    let mut polls: usize = 0;
    loop {
        polls += 1;
        assert!(polls <= 6);
        if fu.poll() == PollResult::ReadyNone {
            break;
        }
    }
    assert_eq!(fu.len(), 0);
}

#[test]
fn producers_never_touch_the_payload() {
    let mut fu = FuturesUnordered::new();
    fu.push(Computation::new(2, Outcome::Value(5)));
    assert_eq!(fu.poll(), PollResult::NotReady);
    let before = fu.nodes[1].computation;
    fu.ref_inc(1);
    fu.clone_raw();
    fu.clone_raw();
    fu.notify(1);
    fu.ref_inc(1);
    fu.ref_dec(1);
    fu.drop_raw();
    assert_eq!(fu.nodes[1].computation, before);
    fu.ref_dec(1);
    fu.drop_raw();
}

#[test]
fn all_nodes_freed_after_drain_and_destroy() {
    let mut fu = FuturesUnordered::new();
    for v in 0..8u64 {
        fu.push(ready(v));
    }
    loop {
        if fu.poll() == PollResult::ReadyNone {
            break;
        }
    }
    fu.destroy();
    for i in 0..fu.nodes.len() {
        assert!(fu.nodes[i].freed, "node {} leaked", i);
    }
    assert!(!fu.inner_alive);
}

#[test]
fn futures_unordered_builds_from_a_list() {
    let list = vec![ready(10), ready(20), Computation::new(0, Outcome::Fault(3))];
    let mut fu = futures_unordered::futures_unordered(list);
    assert_eq!(fu.len(), 3);
    let mut values = Vec::new();
    let mut faults = Vec::new();
    loop {
        match fu.poll() {
            PollResult::ReadySome(v) => values.push(v),
            PollResult::Fault(e) => faults.push(e),
            PollResult::ReadyNone => break,
            other => panic!("unexpected {:?}", other),
        }
    }
    values.sort();
    assert_eq!(values, vec![10, 20]);
    assert_eq!(faults, vec![3]);
}

#[test]
fn stub_is_permanently_queued() {
    let fu = FuturesUnordered::new();
    assert_eq!(fu.stub(), 0);
    assert_eq!(fu.nodes[0].state, 0x8000_0000_0000_0001u64);
    assert!(fu.nodes[0].computation.is_none());
}
