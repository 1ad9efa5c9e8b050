//! Releasing what waited for recently applied events.
//!
//! The queue names events that were applied. A drain takes the first of them, in key order:
//! nothing waits for them any more, what waited for nothing else becomes ready, and the queue
//! entries are consumed. A failure leaves everything as it was.
use vstd::prelude::*;
use crate::bytes::{copy_bytes, EventId};
use crate::event_store::EventState;
use crate::events::ApplyReadyReport;
use crate::schema::{
    claim_recently_valid_events, claimed_recently_valid, recently_valid_views,
    RECENTLY_VALID_EVENTS,
};
use crate::store::{Store, StoreState};
use crate::table::key_views;
use crate::tables::rows_removed;
use crate::unblocking::{unblock_dependents, unblocked, unblocked_count};

verus! {

/// Work of the release.
#[derive(Debug, Clone, Copy, PartialEq, Eq)]
pub enum Work {
    /// Take at most `limit` queued events.
    Drain { limit: usize },
}

/// The events after what waited for the first `n` queued ones is released.
pub open spec fn released(s: EventState, queued: Seq<(Seq<u8>, EventId)>, n: int) -> EventState
    decreases n,
{
    if n <= 0 {
        s
    } else {
        unblocked(released(s, queued, n - 1), queued[n - 1].1@)
    }
}

/// How many events became ready.
pub open spec fn released_count(s: EventState, queued: Seq<(Seq<u8>, EventId)>, n: int) -> int
    decreases n,
{
    if n <= 0 {
        0
    } else {
        released_count(s, queued, n - 1) + unblocked_count(
            released(s, queued, n - 1),
            queued[n - 1].1@,
        )
    }
}

/// The keys of some queued events.
pub open spec fn released_keys(queued: Seq<(Seq<u8>, EventId)>) -> Set<Seq<u8>> {
    queued.map_values(|q: (Seq<u8>, EventId)| q.0).to_set()
}

/// What a drain leaves and returns.
pub open spec fn release_done(
    s0: StoreState,
    limit: usize,
    s1: StoreState,
    r: Result<ApplyReadyReport, String>,
) -> bool {
    match claimed_recently_valid(s0.rows, limit) {
        Err(e) => {
            &&& r matches Err(x) && x@ == e
            &&& s1 == s0
        },
        Ok(queued) => {
            let n = queued.len() as int;
            &&& r matches Ok(report) && report.applied_events == 0 && report.unblocked_events
                == released_count(s0.events, queued, n)
            &&& s1.events == released(s0.events, queued, n)
            &&& s1.rows == rows_removed(s0.rows, RECENTLY_VALID_EVENTS, released_keys(queued))
        },
    }
}

/// Release what waits for the first `limit` queued events.
pub fn drain_recently_valid_events(store: &mut Store, limit: usize) -> (r: Result<
    ApplyReadyReport,
    String,
>)
    requires
        old(store).wf(),
    ensures
        final(store).wf(),
        release_done(old(store)@, limit, final(store)@, r),
{
    let events = match claim_recently_valid_events(store, limit) {
        Ok(events) => events,
        Err(e) => {
            return Err(e);
        },
    };
    let ghost queued = recently_valid_views(events@);
    let ghost start = store@.events;
    let ghost key_of = |q: (Seq<u8>, EventId)| q.0;
    let mut keys: Vec<Vec<u8>> = Vec::new();
    let mut report = ApplyReadyReport::default();
    let mut i: usize = 0;
    proof {
        assert(key_views(keys@) =~= queued.take(0).map_values(key_of));
        store.events.lemma_finite();
        crate::events::lemma_pending_bounded(start);
    }
    while i < events.len()
        invariant
            store.wf(),
            i <= events@.len(),
            queued == recently_valid_views(events@),
            key_of == (|q: (Seq<u8>, EventId)| q.0),
            store@.rows == old(store)@.rows,
            store@.events == released(start, queued, i as int),
            report.applied_events == 0,
            report.unblocked_events == released_count(start, queued, i as int),
            report.unblocked_events + store@.events.blocked().len() == start.blocked().len(),
            start.blocked().len() <= usize::MAX,
            key_views(keys@) == queued.take(i as int).map_values(key_of),
        decreases events.len() - i,
    {
        assert(queued[i as int] == (events@[i as int].key@, events@[i as int].event_id));
        let n = unblock_dependents(&mut store.events, &events[i].event_id);
        report.unblocked_events = report.unblocked_events + n;
        let key = copy_bytes(events[i].key.as_slice());
        let ghost before = keys@;
        keys.push(key);
        proof {
            assert(key_views(keys@) =~= key_views(before).push(key@));
            assert(queued.take(i + 1) =~= queued.take(i as int).push(queued[i as int]));
            assert(key_views(keys@) =~= queued.take(i + 1).map_values(key_of));
        }
        i = i + 1;
    }
    proof {
        assert(queued.len() == events@.len());
        assert(queued.take(i as int) =~= queued);
    }
    let _ = store.tables.delete_table_rows(RECENTLY_VALID_EVENTS, &keys);
    Ok(report)
}

/// Run one unit of work.
pub fn run(store: &mut Store, work: Work) -> (r: Result<ApplyReadyReport, String>)
    requires
        old(store).wf(),
    ensures
        final(store).wf(),
        work matches Work::Drain { limit } && release_done(old(store)@, limit, final(store)@, r),
{
    match work {
        Work::Drain { limit } => drain_recently_valid_events(store, limit),
    }
}

} // verus!
