//! The sync protocol by itself: rounds and inbound events, without the rest of a daemon turn.
use vstd::prelude::*;
use crate::store::Store;
use crate::sync::{sync_done, Output, Work};
use crate::sync_index::SyncIndex;

verus! {

/// Run one unit of sync work.
pub fn run(store: &mut Store, index: &mut SyncIndex, work: Work) -> (r: Result<Output, String>)
    requires
        old(store).wf(),
        old(index).wf(),
    ensures
        final(store).wf(),
        final(index).wf(),
        final(store)@.events == old(store)@.events,
        sync_done(
            old(index)@,
            old(store)@.rows,
            old(store)@.events.events,
            work,
            final(index)@,
            final(store)@.rows,
            r,
        ),
{
    crate::sync::run(store, index, work)
}

} // verus!
