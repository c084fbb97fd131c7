//! Folding one engine's state into another and listing what changed.
use vstd::prelude::*;
use crate::crdt::{conflicts, diff_states, is_diff, merge_spec, CrdtEngine};
use crate::error::BranchDBError;
use crate::models::Change;

verus! {

/// Merges `state2` into `state1` under the typed CRDT rules and returns the
/// changes that take the old `state1` to the merged state: an insert for
/// each row only `state2` held, an update for each row whose merged value
/// differs from the old one. A type mismatch leaves `state1` unchanged.
pub fn merge_states(state1: &mut CrdtEngine, state2: &CrdtEngine) -> (r: Result<Vec<Change>, BranchDBError>)
    requires
        old(state1).wf(),
        state2.wf(),
    ensures
        final(state1).wf(),
        r is Ok <==> !conflicts(old(state1)@, state2@),
        r matches Ok(cs) ==> final(state1)@ == merge_spec(old(state1)@, state2@)
            && is_diff(old(state1)@, final(state1)@, cs@.map_values(|c: Change| c@)),
        r matches Err(e) ==> final(state1)@ == old(state1)@ && e is TypeMismatch,
{
    let before = state1.duplicate();
    state1.merge(state2)?;
    Ok(diff_states(&before, state1))
}

} // verus!
