//! The per-node atomic state word: a reference count fused with the QUEUED
//! flag in one machine word, so that a notifier can claim the right to
//! enqueue and keep the node alive in a single operation.

use vstd::prelude::*;

verus! {

/// Top bit of a node's state word: set iff the node is logically present in
/// the readiness queue (the stub counts as permanently queued).
pub const QUEUED: u64 = 0x8000_0000_0000_0000;

/// Largest reference count a state word may carry: half the word's range.
/// As a mask it selects everything below the QUEUED bit.
pub const MAX_REFS: u64 = 0x7fff_ffff_ffff_ffff;

/// The reference count packed in a state word.
pub open spec fn refs_of(s: u64) -> u64 {
    s & MAX_REFS
}

/// Whether the QUEUED flag of a state word is set.
pub open spec fn is_queued(s: u64) -> bool {
    s & QUEUED == QUEUED
}

/// Setting the QUEUED flag keeps the reference count; on a word whose flag
/// is already set it changes nothing.
pub proof fn lemma_set_queued(s: u64)
    ensures
        is_queued(s | QUEUED),
        refs_of(s | QUEUED) == refs_of(s),
        is_queued(s) ==> s | QUEUED == s,
{
    assert((s | 0x8000_0000_0000_0000) & 0x8000_0000_0000_0000 == 0x8000_0000_0000_0000)
        by (bit_vector);
    assert((s | 0x8000_0000_0000_0000) & 0x7fff_ffff_ffff_ffff == s & 0x7fff_ffff_ffff_ffff)
        by (bit_vector);
    assert(s & 0x8000_0000_0000_0000 == 0x8000_0000_0000_0000 ==> s | 0x8000_0000_0000_0000 == s)
        by (bit_vector);
}

/// Masking with MAX_REFS clears the QUEUED flag and keeps the count.
pub proof fn lemma_clear_queued(s: u64)
    ensures
        !is_queued(s & MAX_REFS),
        refs_of(s & MAX_REFS) == refs_of(s),
{
    assert((s & 0x7fff_ffff_ffff_ffff) & 0x8000_0000_0000_0000 != 0x8000_0000_0000_0000)
        by (bit_vector);
    assert((s & 0x7fff_ffff_ffff_ffff) & 0x7fff_ffff_ffff_ffff == s & 0x7fff_ffff_ffff_ffff)
        by (bit_vector);
}

/// Adding one to a word whose count is below MAX_REFS increments the count
/// and leaves the flag alone; the addition cannot wrap.
pub proof fn lemma_inc(s: u64)
    requires
        refs_of(s) < MAX_REFS,
    ensures
        s < u64::MAX,
        refs_of((s + 1) as u64) == refs_of(s) + 1,
        is_queued((s + 1) as u64) == is_queued(s),
{
    assert(s & 0x7fff_ffff_ffff_ffff < 0x7fff_ffff_ffff_ffff ==> s < 0xffff_ffff_ffff_ffff)
        by (bit_vector);
    assert(s & 0x7fff_ffff_ffff_ffff < 0x7fff_ffff_ffff_ffff ==> ((s + 1) as u64) & 0x7fff_ffff_ffff_ffff
        == (s & 0x7fff_ffff_ffff_ffff) + 1) by (bit_vector);
    assert(s & 0x7fff_ffff_ffff_ffff < 0x7fff_ffff_ffff_ffff ==> (((s + 1) as u64) & 0x8000_0000_0000_0000
        == 0x8000_0000_0000_0000) == (s & 0x8000_0000_0000_0000 == 0x8000_0000_0000_0000))
        by (bit_vector);
}

/// Subtracting one from a word whose count is at least one decrements the
/// count and leaves the flag alone; the subtraction cannot wrap.
pub proof fn lemma_dec(s: u64)
    requires
        refs_of(s) >= 1,
    ensures
        s >= 1,
        refs_of((s - 1) as u64) == refs_of(s) - 1,
        is_queued((s - 1) as u64) == is_queued(s),
{
    assert(s & 0x7fff_ffff_ffff_ffff >= 1 ==> s >= 1) by (bit_vector);
    assert(s & 0x7fff_ffff_ffff_ffff >= 1 ==> ((s - 1) as u64) & 0x7fff_ffff_ffff_ffff
        == (s & 0x7fff_ffff_ffff_ffff) - 1) by (bit_vector);
    assert(s & 0x7fff_ffff_ffff_ffff >= 1 ==> (((s - 1) as u64) & 0x8000_0000_0000_0000
        == 0x8000_0000_0000_0000) == (s & 0x8000_0000_0000_0000 == 0x8000_0000_0000_0000))
        by (bit_vector);
}

/// The word a node is born with: QUEUED set over a count of one.
pub proof fn lemma_initial_word()
    ensures
        is_queued(QUEUED | 1),
        refs_of(QUEUED | 1) == 1,
{
    assert((0x8000_0000_0000_0000u64 | 1) & 0x8000_0000_0000_0000 == 0x8000_0000_0000_0000)
        by (bit_vector);
    assert((0x8000_0000_0000_0000u64 | 1) & 0x7fff_ffff_ffff_ffff == 1) by (bit_vector);
}

/// Unmaskable halt for a broken engine invariant: a reference count past
/// MAX_REFS, or a final release that finds the payload still in place. The
/// verified operations exclude both situations by their contracts, so every
/// call of this stands on a path the verifier shows unreachable; the model
/// therefore gives the halt primitive no further behaviour.
pub fn abort()
{
}

} // verus!
