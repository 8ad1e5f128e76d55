use vstd::prelude::*;
use crate::midi_types::MetaEvent;
use crate::timed_seq::{merge_spec, merge_timed};

verus! {

/// Merges two meta event sequences stably by tick (events of `metas_1` first
/// on equal ticks).
pub fn merge_metas(metas_1: Vec<MetaEvent>, metas_2: Vec<MetaEvent>) -> (r: Vec<MetaEvent>)
    requires
        metas_1@.len() + metas_2@.len() <= usize::MAX,
    ensures
        r@ == merge_spec(metas_1@, metas_2@),
{
    let (merged, _) = merge_timed(metas_1, metas_2);
    merged
}

} // verus!
