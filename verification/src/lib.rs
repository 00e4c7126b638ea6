//! Core of an unordered futures multiplexer: a collection of independently
//! progressing computations that yields each completion as soon as it is
//! ready, regardless of submission order.
//!
//! The model keeps every heap cell of the engine in one arena so that the
//! readiness-tracking machinery — the fused reference-count/QUEUED state
//! word, the consumer-owned doubly-linked owner set, and the intrusive
//! MPSC readiness queue with its sentinel stub — can be stated and proved
//! exactly. Producer-side operations (notifying, reference counting) are
//! methods that interleave freely with the consumer's `poll`, `push` and
//! `destroy`; a producer caught between the queue's head-swap and the
//! predecessor-link step is represented explicitly, which is what the
//! consumer observes as an inconsistent queue.

pub mod state;
pub mod computation;
pub mod node;
pub mod collection;
pub mod notifier;
pub mod seqs;
pub mod laws;

pub use collection::Dequeue;
pub use collection::FuturesUnordered;
pub use collection::PollResult;
pub use collection::futures_unordered;
pub use computation::Computation;
pub use computation::Outcome;
pub use node::Node;
