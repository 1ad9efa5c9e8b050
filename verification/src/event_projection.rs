//! Projecting ready events.
//!
//! The first ready events, in the order of timestamps and then ids, are claimed and projected
//! in one transaction. A projection that fails leaves them ready.
use vstd::prelude::*;
use crate::events::{drain_ready, drained, ApplyReadyReport, EventRegistry};
use crate::store::Store;

verus! {

/// Work of the projection.
#[derive(Debug, Clone, Copy, PartialEq, Eq)]
pub enum Work {
    /// Project at most `limit` events.
    Drain { limit: usize },
}

/// Run one unit of work.
pub fn run<R: EventRegistry>(store: &mut Store, registry: &R, work: Work) -> (r: Result<
    ApplyReadyReport,
    String,
>)
    requires
        old(store).wf(),
    ensures
        final(store).wf(),
        work matches Work::Drain { limit } && match drained(registry, old(store)@, limit as nat) {
            Ok((after, applied, unblocked)) => {
                &&& r matches Ok(report) && report.applied_events == applied
                    && report.unblocked_events == unblocked
                &&& final(store)@ == after
            },
            Err(e) => {
                &&& r matches Err(x) && x@ == "drain ready events: "@ + e
                &&& final(store)@ == old(store)@
            },
        },
{
    match work {
        Work::Drain { limit } => drain_ready(store, registry, limit),
    }
}

} // verus!
