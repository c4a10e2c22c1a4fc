//! Numbering of fast-import marks.
use vstd::prelude::*;

verus! {

/// The mark of revision `revision` in a source whose marks are shifted by `offset`.
pub open spec fn mark_of(revision: nat, offset: nat) -> nat {
    revision + 1 + offset
}

/// Computes the mark of a revision. The sum is formed in a type that holds
/// it for every revision and every offset.
pub fn mark(revision: usize, offset: usize) -> (m: u128)
    ensures
        m == mark_of(revision as nat, offset as nat),
        m > 0,
{
    revision as u128 + 1 + offset as u128
}

/// Marks are injective: within one source, two revisions share a mark only
/// if they are the same revision.
pub proof fn lemma_mark_injective(r1: nat, r2: nat, offset: nat)
    ensures
        mark_of(r1, offset) == mark_of(r2, offset) <==> r1 == r2,
{
}

/// Marks grow with the revision, so they increase in emission order.
pub proof fn lemma_mark_monotonic(r1: nat, r2: nat, offset: nat)
    ensures
        r1 < r2 <==> mark_of(r1, offset) < mark_of(r2, offset),
{
}

} // verus!
