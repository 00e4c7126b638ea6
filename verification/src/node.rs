//! One heap cell of the engine: a computation slot, the owner-set links, the
//! readiness-queue link and the fused state word. Cells live in an arena and
//! are named by their index, the model's stand-in for an address.

use vstd::prelude::*;

use crate::computation::Computation;
use crate::state::refs_of;

verus! {

/// A link that points nowhere.
pub const NIL: usize = usize::MAX;

/// One node of the collection. `computation`, `next_all` and `prev_all` are
/// touched only by the consumer; `next_readiness` and `state` are the fields
/// that producers reach through the shared head. `freed` marks that the cell
/// has been deallocated, and the ghost `handles` counts the external notifier
/// references that currently name this node.
#[derive(Clone, Copy)]
pub struct Node {
    pub computation: Option<Computation>,
    pub next_all: usize,
    pub prev_all: usize,
    pub next_readiness: usize,
    pub state: u64,
    pub freed: bool,
    pub handles: Ghost<nat>,
}

impl Node {
    /// The reference count carried by this node's state word.
    pub open spec fn refs(self) -> u64 {
        refs_of(self.state)
    }
}

} // verus!
