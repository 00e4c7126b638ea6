//! The model of one user computation. Polling it either completes with an
//! outcome or reports that it is not ready yet; a not-ready computation may
//! arrange for its own notifier to fire before the poll returns.

use vstd::prelude::*;

verus! {

/// What a computation finally produces: a value or an error, both carried as
/// plain words. The consumer surfaces a value as `Ready(Some(v))` and an
/// error verbatim as a fault.
#[derive(Clone, Copy, PartialEq, Eq, Structural, Debug)]
pub enum Outcome {
    Value(u64),
    Fault(u64),
}

/// One user computation: it reports not-ready `remaining` more times, then
/// completes with `outcome`. While not ready it may fire its own notifier
/// before the poll returns (`self_notify`), which models a computation that
/// schedules its wake-up during the poll itself.
#[derive(Clone, Copy, PartialEq, Eq, Structural, Debug)]
pub struct Computation {
    pub remaining: u64,
    pub self_notify: bool,
    pub outcome: Outcome,
}

impl Computation {
    /// A computation that completes with `outcome` after `remaining` more
    /// polls, without notifying on its own.
    pub fn new(remaining: u64, outcome: Outcome) -> (r: Computation)
        ensures
            r == (Computation { remaining, self_notify: false, outcome }),
    {
        Computation { remaining, self_notify: false, outcome }
    }

    /// Whether the next poll completes the computation.
    pub open spec fn ready(self) -> bool {
        self.remaining == 0
    }
}

} // verus!
