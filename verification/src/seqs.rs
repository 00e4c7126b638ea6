//! Sequence and multiset facts the engine's proofs lean on: how membership
//! and the held-outcome multiset behave under prepending, appending and
//! removing, the operations the owner set and the readiness chain use.

use vstd::prelude::*;
use vstd::multiset::Multiset;

use crate::collection::outcome_at;
use crate::collection::outcomes_of;
use crate::computation::Outcome;
use crate::node::Node;

verus! {

/// Membership in a sequence with one element cut out: for a duplicate-free
/// sequence it is membership minus exactly the cut element.
pub proof fn lemma_remove_contains<A>(o: Seq<A>, k: int)
    requires
        0 <= k < o.len(),
        forall|i: int, j: int| 0 <= i < j < o.len() ==> o[i] != o[j],
    ensures
        forall|x: A| #[trigger] o.remove(k).contains(x) <==> (o.contains(x) && x != o[k]),
{
    o.remove_ensures(k);
    assert forall|x: A| #[trigger] o.remove(k).contains(x) implies (o.contains(x) && x != o[k]) by {
        let i = choose|i: int| 0 <= i < o.remove(k).len() && o.remove(k)[i] == x;
        if i < k {
            assert(o[i] == x);
        } else {
            assert(o[i + 1] == x);
        }
    }
    assert forall|x: A| o.contains(x) && x != o[k] implies #[trigger] o.remove(k).contains(x) by {
        let i = choose|i: int| 0 <= i < o.len() && o[i] == x;
        if i < k {
            assert(o.remove(k)[i] == x);
        } else {
            assert(o.remove(k)[i - 1] == x);
        }
    }
}

/// Membership in a sequence with one element put in front.
pub proof fn lemma_prepend_contains<A>(n: A, o: Seq<A>)
    ensures
        forall|x: A| #[trigger] (seq![n] + o).contains(x) <==> (x == n || o.contains(x)),
{
    let c = seq![n] + o;
    assert forall|x: A| #[trigger] c.contains(x) implies (x == n || o.contains(x)) by {
        let i = choose|i: int| 0 <= i < c.len() && c[i] == x;
        if i > 0 {
            assert(o[i - 1] == x);
        }
    }
    assert forall|x: A| (x == n || o.contains(x)) implies #[trigger] c.contains(x) by {
        if x == n {
            assert(c[0] == x);
        } else {
            let i = choose|i: int| 0 <= i < o.len() && o[i] == x;
            assert(c[i + 1] == x);
        }
    }
}

/// Membership in a sequence with one element pushed on the back.
pub proof fn lemma_push_contains<A>(o: Seq<A>, n: A)
    ensures
        forall|x: A| #[trigger] o.push(n).contains(x) <==> (x == n || o.contains(x)),
{
    let c = o.push(n);
    assert forall|x: A| #[trigger] c.contains(x) implies (x == n || o.contains(x)) by {
        let i = choose|i: int| 0 <= i < c.len() && c[i] == x;
        if i < o.len() {
            assert(o[i] == x);
        }
    }
    assert forall|x: A| (x == n || o.contains(x)) implies #[trigger] c.contains(x) by {
        if x == n {
            assert(c[c.len() - 1] == x);
        } else {
            let i = choose|i: int| 0 <= i < o.len() && o[i] == x;
            assert(c[i] == x);
        }
    }
}

/// The held-outcome multiset reads only the listed slots: two arenas that
/// agree on the computations of the listed nodes yield the same multiset.
pub proof fn lemma_outcomes_frame(nodes1: Seq<Node>, nodes2: Seq<Node>, o: Seq<usize>)
    requires
        forall|i: int|
            0 <= i < o.len() ==> #[trigger] o[i] < nodes1.len() && o[i] < nodes2.len()
                && nodes1[o[i] as int].computation == nodes2[o[i] as int].computation,
    ensures
        outcomes_of(nodes1, o) == outcomes_of(nodes2, o),
    decreases o.len(),
{
    if o.len() > 0 {
        lemma_outcomes_frame(nodes1, nodes2, o.drop_last());
        assert(o[o.len() - 1] == o.last());
        assert(outcome_at(nodes1, o.last()) == outcome_at(nodes2, o.last()));
    }
}

/// As above, but only the outcomes need to agree: a slot whose computation
/// advanced without changing its outcome leaves the multiset alone.
pub proof fn lemma_outcomes_frame_outcome(nodes1: Seq<Node>, nodes2: Seq<Node>, o: Seq<usize>)
    requires
        forall|i: int|
            0 <= i < o.len() ==> #[trigger] o[i] < nodes1.len() && o[i] < nodes2.len()
                && outcome_at(nodes1, o[i]) == outcome_at(nodes2, o[i]),
    ensures
        outcomes_of(nodes1, o) == outcomes_of(nodes2, o),
    decreases o.len(),
{
    if o.len() > 0 {
        lemma_outcomes_frame_outcome(nodes1, nodes2, o.drop_last());
        assert(o[o.len() - 1] == o.last());
    }
}

/// Prepending a node puts its outcome into the multiset.
pub proof fn lemma_outcomes_prepend(nodes: Seq<Node>, n: usize, o: Seq<usize>)
    ensures
        outcomes_of(nodes, seq![n] + o) == outcomes_of(nodes, o).insert(outcome_at(nodes, n)),
    decreases o.len(),
{
    let c = seq![n] + o;
    if o.len() == 0 {
        assert(c.drop_last() =~= Seq::<usize>::empty());
        assert(c.last() == n);
        assert(outcomes_of(nodes, c) == outcomes_of(nodes, c.drop_last()).insert(
            outcome_at(nodes, c.last()),
        ));
        assert(outcomes_of(nodes, Seq::<usize>::empty()) == Multiset::<Outcome>::empty());
        assert(o =~= Seq::<usize>::empty());
    } else {
        assert(c.drop_last() =~= seq![n] + o.drop_last());
        assert(c.last() == o.last());
        lemma_outcomes_prepend(nodes, n, o.drop_last());
        let m = outcomes_of(nodes, o.drop_last());
        assert(m.insert(outcome_at(nodes, n)).insert(outcome_at(nodes, o.last()))
            =~= m.insert(outcome_at(nodes, o.last())).insert(outcome_at(nodes, n)));
    }
}

/// Removing one position takes exactly that node's outcome out of the
/// multiset.
pub proof fn lemma_outcomes_remove(nodes: Seq<Node>, o: Seq<usize>, k: int)
    requires
        0 <= k < o.len(),
    ensures
        outcomes_of(nodes, o) == outcomes_of(nodes, o.remove(k)).insert(outcome_at(nodes, o[k])),
    decreases o.len(),
{
    if k == o.len() - 1 {
        assert(o.remove(k) =~= o.drop_last());
    } else {
        assert(o.remove(k).drop_last() =~= o.drop_last().remove(k));
        assert(o.remove(k).last() == o.last());
        assert(o.drop_last()[k] == o[k]);
        lemma_outcomes_remove(nodes, o.drop_last(), k);
        let m = outcomes_of(nodes, o.drop_last().remove(k));
        assert(m.insert(outcome_at(nodes, o[k])).insert(outcome_at(nodes, o.last()))
            =~= m.insert(outcome_at(nodes, o.last())).insert(outcome_at(nodes, o[k])));
    }
}

/// An element of a sequence names one of its positions.
pub proof fn lemma_contains_index<A>(o: Seq<A>, x: A) -> (k: int)
    requires
        o.contains(x),
    ensures
        0 <= k < o.len(),
        o[k] == x,
{
    choose|k: int| 0 <= k < o.len() && o[k] == x
}

} // verus!
