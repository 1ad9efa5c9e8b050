//! Waking what waited for recently applied events.
use vstd::prelude::*;
use crate::dependency_unblock::{drain_recently_valid_events, release_done};
use crate::events::ApplyReadyReport;
use crate::store::Store;

verus! {

/// Work of the wake.
#[derive(Debug, Clone, Copy, PartialEq, Eq)]
pub enum Work {
    /// Take at most `limit` queued events.
    Drain { limit: usize },
}

/// Run one unit of work.
pub fn run(store: &mut Store, work: Work) -> (r: Result<ApplyReadyReport, String>)
    requires
        old(store).wf(),
    ensures
        final(store).wf(),
        work matches Work::Drain { limit } && release_done(old(store)@, limit, final(store)@, r),
{
    match work {
        Work::Drain { limit } => drain_recently_valid_events(store, limit),
    }
}

} // verus!
