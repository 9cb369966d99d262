//! When repeated syncs have caught up with their source.
use vstd::prelude::*;

use crate::bytes;
use crate::index::{BlockId, IndexState};

verus! {

/// Tips of an index after syncs that follow one another.
#[derive(Clone, Copy, Debug)]
pub struct SyncProgress {
    previous_tip: Option<Option<BlockId>>,
}

impl View for SyncProgress {
    type V = Option<Option<BlockId>>;

    /// The tip after the last sync, if there was one.
    closed spec fn view(&self) -> Option<Option<BlockId>> {
        self.previous_tip
    }
}

impl Default for SyncProgress {
    fn default() -> (progress: Self)
        ensures
            progress@ is None,
    {
        SyncProgress { previous_tip: None }
    }
}

fn same_tip(left: Option<BlockId>, right: Option<BlockId>) -> (same: bool)
    ensures
        same == (left == right),
{
    match (left, right) {
        (None, None) => true,
        (Some(left), Some(right)) => {
            proof {
                assert(left.hash@ == right.hash@ ==> left.hash =~= right.hash);
            }
            left.height == right.height && bytes::same_bytes(
                left.hash.as_slice(),
                right.hash.as_slice(),
            )
        },
        _ => false,
    }
}

impl SyncProgress {
    /// Notes the state after a sync: whether it moved the tip no further than the sync before it,
    /// so that no other sync is needed.
    pub fn is_settled(&mut self, state: &IndexState) -> (settled: bool)
        ensures
            settled == (old(self)@ == Some(state@.durable_tip)),
            final(self)@ == Some(state@.durable_tip),
    {
        let tip: Option<BlockId> = state.durable_tip();
        let settled: bool = match self.previous_tip {
            None => false,
            Some(previous) => same_tip(previous, tip),
        };
        self.previous_tip = Some(tip);
        settled
    }
}

} // verus!
