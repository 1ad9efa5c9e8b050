//! Local retention: dropping the stored bytes of an event.
//!
//! A purge removes what makes an event replayable or schedulable here. Labels stay: they are
//! facts of the protocol. A shared event of a workspace is also queued for the sync index to
//! forget, so that summaries agree with what is stored.
use vstd::prelude::*;
use crate::bytes::{copy_bytes, id_at, id_pair, id_with, lemma_id_with, EventId};
use crate::event_store::EventRow;
use crate::schema::{collected, lemma_collected_step};
use crate::store::{Store, StoreState};
use crate::tables::{pair_views, rows_listed, Rows, TableName};
use crate::text::text;

verus! {

/// The queue of purged events that the sync index still has to forget.
pub const NEGENTROPY_PENDING_PURGES: TableName = TableName::NegentropyPendingPurges;

/// The key of a purged event in the queue.
pub open spec fn purge_key(workspace_id: EventId, event_id: Seq<u8>) -> Seq<u8> {
    workspace_id@ + event_id
}

/// The rows with a purged event queued, unless it is queued already.
pub open spec fn purge_queued(m: Rows, workspace_id: EventId, event_id: Seq<u8>) -> Rows {
    let key = (NEGENTROPY_PENDING_PURGES, purge_key(workspace_id, event_id));
    if m.contains_key(key) {
        m
    } else {
        m.insert(key, Seq::empty())
    }
}

/// Queue a purged event of a workspace for the sync index; an event without a workspace was
/// never in the index.
pub fn enqueue_purge_in_tx(store: &mut Store, workspace_id: Option<EventId>, event_id: &EventId)
    requires
        old(store).wf(),
    ensures
        final(store).wf(),
        final(store)@ == (StoreState {
            rows: match workspace_id {
                Some(w) => purge_queued(old(store)@.rows, w, event_id@),
                None => old(store)@.rows,
            },
            ..old(store)@
        }),
{
    if let Some(w) = workspace_id {
        let empty: Vec<u8> = Vec::new();
        assert(empty@ =~= Seq::<u8>::empty());
        let _ = store.tables.insert_row(
            NEGENTROPY_PENDING_PURGES,
            id_pair(&w, event_id).as_slice(),
            empty,
        );
    }
}

/// An event that the sync index may hold: a shared event of a workspace.
pub open spec fn is_indexed(row: EventRow) -> bool {
    row.scope is Shared && row.workspace_id is Some
}

/// The store without an event: its bytes and the edges that hold it back are gone, and when
/// it is a shared event of a workspace it is queued for the sync index.
pub open spec fn purged_store(s: StoreState, id: Seq<u8>) -> StoreState {
    StoreState {
        rows: if s.events.events.contains_key(id) && is_indexed(s.events.events[id]) {
            purge_queued(s.rows, s.events.events[id].workspace_id->Some_0, id)
        } else {
            s.rows
        },
        events: s.events.purged(id),
    }
}

/// Drop the stored bytes of an event. Tells whether the event was stored.
pub fn purge_event_storage_in_tx(store: &mut Store, event_id: &EventId) -> (purged: bool)
    requires
        old(store).wf(),
    ensures
        final(store).wf(),
        purged == old(store)@.events.events.contains_key(event_id@),
        final(store)@ == purged_store(old(store)@, event_id@),
{
    let workspace_id = match store.events.event_facts(event_id) {
        Some((true, workspace_id)) => workspace_id,
        _ => None,
    };
    let purged = store.events.purge_event(event_id);
    enqueue_purge_in_tx(store, workspace_id, event_id);
    purged
}

/// A queued purge.
#[derive(Debug, Clone, PartialEq, Eq)]
pub struct PendingPurge {
    pub key: Vec<u8>,
    pub event_id: EventId,
}

/// What queued purges say.
pub open spec fn purge_views(purges: Seq<PendingPurge>) -> Seq<(Seq<u8>, EventId)> {
    purges.map_values(|p: PendingPurge| (p.key@, p.event_id))
}

/// What one queued purge says, or what is wrong with it.
pub open spec fn pending_purge_of(row: (Seq<u8>, Seq<u8>)) -> Result<(Seq<u8>, EventId), Seq<char>> {
    if row.0.len() != 64 {
        Err("pending purge key must be 64 bytes"@)
    } else {
        Ok((row.0, id_with(row.0.skip(32))))
    }
}

/// What the first queued purges say, in key order, or what is wrong with one of them.
pub open spec fn pending_purges(m: Rows, limit: usize) -> Result<Seq<(Seq<u8>, EventId)>, Seq<char>> {
    collected(
        rows_listed(m, NEGENTROPY_PENDING_PURGES, Seq::empty(), limit).map_values(
            |row: (Seq<u8>, Seq<u8>)| pending_purge_of(row),
        ),
    )
}

/// Read the first queued purges, in key order.
pub fn drain_pending_purges(store: &Store, limit: usize) -> (r: Result<Vec<PendingPurge>, String>)
    requires
        store.wf(),
    ensures
        match pending_purges(store@.rows, limit) {
            Ok(v) => r matches Ok(x) && purge_views(x@) == v,
            Err(e) => r matches Err(x) && x@ == e,
        },
{
    let empty: Vec<u8> = Vec::new();
    let rows = store.tables.table_rows_with_key_prefix(
        NEGENTROPY_PENDING_PURGES,
        empty.as_slice(),
        limit,
    );
    let ghost listed = rows_listed(store@.rows, NEGENTROPY_PENDING_PURGES, Seq::empty(), limit);
    let ghost items = listed.map_values(|row: (Seq<u8>, Seq<u8>)| pending_purge_of(row));
    proof {
        assert(empty@ =~= Seq::<u8>::empty());
        assert(items.len() == rows@.len());
    }
    let mut out: Vec<PendingPurge> = Vec::new();
    let mut i: usize = 0;
    assert(purge_views(out@) =~= Seq::empty());
    while i < rows.len()
        invariant
            i <= rows@.len(),
            pair_views(rows@) == listed,
            items == listed.map_values(|row: (Seq<u8>, Seq<u8>)| pending_purge_of(row)),
            items.len() == rows@.len(),
            pending_purges(store@.rows, limit) == collected(items),
            collected(items.take(i as int)) == Ok::<
                Seq<(Seq<u8>, EventId)>,
                Seq<char>,
            >(purge_views(out@)),
        decreases rows.len() - i,
    {
        proof {
            assert(pair_views(rows@)[i as int] == (rows@[i as int].0@, rows@[i as int].1@));
            lemma_collected_step(items, i as int);
        }
        if rows[i].0.len() != 64 {
            return Err(text("pending purge key must be 64 bytes"));
        }
        let event_id = id_at(rows[i].0.as_slice(), 32);
        let key = copy_bytes(rows[i].0.as_slice());
        let ghost before = out@;
        out.push(PendingPurge { key, event_id });
        proof {
            assert(key@.subrange(32, 64) =~= key@.skip(32));
            lemma_id_with(event_id);
            assert(purge_views(out@) =~= purge_views(before).push((key@, event_id)));
        }
        i = i + 1;
    }
    assert(items.take(i as int) =~= items);
    Ok(out)
}

/// A purge leaves the labels of an event, and of every other event everything.
pub proof fn law_purge_keeps_labels_and_other_events(s: StoreState, id: Seq<u8>)
    ensures
        purged_store(s, id).events.labels == s.events.labels,
        !purged_store(s, id).events.events.contains_key(id),
        forall|other: Seq<u8>|
            other != id && #[trigger] s.events.events.contains_key(other) ==> purged_store(
                s,
                id,
            ).events.events.contains_key(other) && purged_store(s, id).events.events[other]
                == s.events.events[other],
        forall|d: Seq<u8>| !#[trigger] purged_store(s, id).events.edges.contains((d, id))
            || !s.events.events.contains_key(id),
{
}

/// Purging an event that is not stored changes nothing.
pub proof fn law_purge_of_a_missing_event_is_nothing(s: StoreState, id: Seq<u8>)
    requires
        !s.events.events.contains_key(id),
    ensures
        purged_store(s, id) == s,
{
}

/// A purge tells the sync index: where the event is shared and belongs to a workspace, its id is
/// queued for removal under that workspace. Nothing that was queued is lost.
pub proof fn law_purge_tells_the_index(s: StoreState, id: Seq<u8>, workspace_id: EventId)
    requires
        s.events.events.contains_key(id),
        s.events.events[id].scope is Shared,
        s.events.events[id].workspace_id == Some(workspace_id),
    ensures
        purged_store(s, id).rows.contains_key(
            (TableName::NegentropyPendingPurges, workspace_id@ + id),
        ),
        forall|k: (TableName, Seq<u8>)| #[trigger]
            s.rows.contains_key(k) ==> purged_store(s, id).rows.contains_key(k),
{
}

} // verus!
