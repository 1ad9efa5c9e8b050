//! Recording events and letting the store settle.
use vstd::prelude::*;
use crate::events::{
    admitted_batch, drained_until_idle, proposal_views, run, AdmitReport, ApplyReadyReport,
    CommandOutput, DrainUntilIdle, EventRegistry, ProposalView, ProposedEvent,
};
use crate::schema::{canonical_in_row, canonical_in_row_of, CanonicalInView};
use crate::store::{Store, StoreState};
use crate::tables::{
    law_added_rows_are_there, row_views, rows_added, RowView, Rows, TableName, TableRow,
};
use crate::text::prefixed;

verus! {

/// How many ready events are projected at a time.
pub const READY_BATCH: usize = 4096;

/// The store has settled: ready events were projected until none was left, or one failed.
pub open spec fn settled<R: EventRegistry>(
    reg: &R,
    before: StoreState,
    after: StoreState,
    error: Option<Seq<char>>,
) -> bool {
    exists|r: Result<ApplyReadyReport, String>|
        {
            &&& #[trigger] drained_until_idle(reg, before, READY_BATCH as nat, after, r)
            &&& match r {
                Ok(_) => error is None,
                Err(e) => error == Some(e@),
            }
        }
}

/// Project ready events until none is left.
pub fn settle<R: EventRegistry>(store: &mut Store, registry: &R) -> (r: Result<(), String>)
    requires
        old(store).wf(),
    ensures
        final(store).wf(),
        settled(
            registry,
            old(store)@,
            final(store)@,
            match r {
                Ok(_) => None,
                Err(e) => Some(e@),
            },
        ),
{
    let r = run(store, registry, DrainUntilIdle { batch_size: READY_BATCH });
    let ghost done = r;
    assert(drained_until_idle(registry, old(store)@, READY_BATCH as nat, store@, done));
    match r {
        Ok(_) => Ok(()),
        Err(e) => Err(e),
    }
}

/// What recording some events leaves and returns: they are admitted as a whole, and then the
/// store settles. `what` stands before the cause when they are refused.
pub open spec fn recorded<R: EventRegistry>(
    reg: &R,
    before: StoreState,
    events: Seq<ProposalView>,
    what: Seq<char>,
    after: StoreState,
    r: Result<AdmitReport, String>,
) -> bool {
    match admitted_batch(reg, before, events) {
        Err(e) => {
            &&& r matches Err(x) && x@ == what + e
            &&& after == before
        },
        Ok((mid, t)) => match r {
            Ok(report) => report.holds(t) && settled(reg, mid, after, None),
            Err(x) => settled(reg, mid, after, Some(x@)),
        },
    }
}

/// Record some events.
pub fn record_events<R: EventRegistry>(
    store: &mut Store,
    registry: &R,
    events: Vec<ProposedEvent>,
    what: &str,
) -> (r: Result<AdmitReport, String>)
    requires
        old(store).wf(),
    ensures
        final(store).wf(),
        recorded(registry, old(store)@, proposal_views(events@), what@, final(store)@, r),
{
    let report = match run(store, registry, CommandOutput { value: (), events }) {
        Ok((_, report)) => report,
        Err(e) => {
            return Err(prefixed(what, e));
        },
    };
    match settle(store, registry) {
        Ok(_) => Ok(report),
        Err(e) => Err(e),
    }
}

/// The rows that queue some events for admission.
pub open spec fn proposal_rows(events: Seq<ProposalView>) -> Seq<RowView> {
    events.map_values(
        |p: ProposalView|
            canonical_in_row_of(
                CanonicalInView {
                    canonical_bytes: p.record.canonical_bytes,
                    receive: p.receive,
                    provenance: None,
                },
            ),
    )
}

/// The rows with some events queued for admission.
pub open spec fn proposals_queued(m: Rows, events: Seq<ProposalView>) -> Rows {
    let rows = proposal_rows(events);
    rows_added(m, rows, rows.len() as int)
}

/// Queue some events for admission.
pub fn enqueue_proposed_events(store: &mut Store, events: &Vec<ProposedEvent>)
    requires
        old(store).wf(),
    ensures
        final(store).wf(),
        final(store)@ == (StoreState {
            rows: proposals_queued(old(store)@.rows, proposal_views(events@)),
            ..old(store)@
        }),
{
    let ghost views = proposal_views(events@);
    let mut rows: Vec<TableRow> = Vec::new();
    let mut i: usize = 0;
    assert(row_views(rows@) =~= proposal_rows(views.take(0)));
    while i < events.len()
        invariant
            i <= events@.len(),
            views == proposal_views(events@),
            row_views(rows@) == proposal_rows(views.take(i as int)),
        decreases events.len() - i,
    {
        let row = canonical_in_row(events[i].record().duplicate(), events[i].receive());
        let ghost before = rows@;
        rows.push(row);
        proof {
            assert(views[i as int] == events@[i as int]@);
            assert(row_views(rows@) =~= row_views(before).push(row@));
            assert(views.take(i + 1) =~= views.take(i as int).push(views[i as int]));
            assert(row_views(rows@) =~= proposal_rows(views.take(i + 1)));
        }
        i = i + 1;
    }
    proof {
        assert(views.len() == events@.len());
        assert(views.take(i as int) =~= views);
        assert(row_views(rows@).len() == rows@.len());
    }
    let _ = store.tables.insert_table_rows(&rows);
}

/// Every proposed event is queued for admission, under the digest of what its row says, and
/// nothing that was there is lost.
pub proof fn law_every_proposal_is_queued(m: Rows, events: Seq<ProposalView>)
    ensures
        forall|i: int|
            0 <= i < events.len() ==> proposals_queued(m, events).contains_key(
                (
                    TableName::CanonicalIn,
                    canonical_in_row_of(
                        CanonicalInView {
                            canonical_bytes: (#[trigger] events[i]).record.canonical_bytes,
                            receive: events[i].receive,
                            provenance: None,
                        },
                    ).key,
                ),
            ),
        forall|k: (TableName, Seq<u8>)| #[trigger]
            m.contains_key(k) ==> proposals_queued(m, events).contains_key(k) && proposals_queued(
                m,
                events,
            )[k] == m[k],
        forall|k: (TableName, Seq<u8>)| #[trigger]
            proposals_queued(m, events).contains_key(k) && !m.contains_key(k) ==> k.0
                == TableName::CanonicalIn && exists|i: int|
                0 <= i < events.len() && proposals_queued(m, events)[k] == canonical_in_row_of(
                    CanonicalInView {
                        canonical_bytes: (#[trigger] events[i]).record.canonical_bytes,
                        receive: events[i].receive,
                        provenance: None,
                    },
                ).value,
{
    let rows = proposal_rows(events);
    law_added_rows_are_there(m, rows, rows.len() as int);
    assert forall|i: int| 0 <= i < events.len() implies (#[trigger] events[i], rows[i]).1
        == canonical_in_row_of(
        CanonicalInView {
            canonical_bytes: events[i].record.canonical_bytes,
            receive: events[i].receive,
            provenance: None,
        },
    ) by {}
    assert forall|k: (TableName, Seq<u8>)| #[trigger]
        proposals_queued(m, events).contains_key(k) && !m.contains_key(k) implies k.0
        == TableName::CanonicalIn && exists|i: int|
        0 <= i < events.len() && proposals_queued(m, events)[k] == canonical_in_row_of(
            CanonicalInView {
                canonical_bytes: (#[trigger] events[i]).record.canonical_bytes,
                receive: events[i].receive,
                provenance: None,
            },
        ).value by {
        let i = choose|i: int|
            0 <= i < rows.len() && (#[trigger] rows[i]).table == k.0 && rows[i].key == k.1
                && rows[i].value == proposals_queued(m, events)[k];
        let p = events[i];
    }
}

} // verus!
