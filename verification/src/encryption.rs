//! Keeping keys and history: the one entry through which other work asks for it.
//!
//! Wrapped keys are unwrapped, the recipient key is rotated, leaves of events are derived and
//! retired, blocked content gets the leaves that it names, and history is chopped. Opening a
//! wrap and signing a record are done by the caller; what came of it is part of the work. Work
//! that stored an event is followed by the projection of every event that is ready then.
use vstd::prelude::*;
use crate::bytes::EventId;
use crate::content::{valid_message_tombstones, MessageTombstoneRow};
use crate::event_store::edge_keys;
use crate::events::{
    self, after_ready, any_ready, ready_applied, ApplyReadyReport, DrainUntilIdle, EventRegistry,
    DEFAULT_READY_BATCH,
};
use crate::history::Frontier;
use crate::history_chop::{chop_admits, chop_time_tree_prefix, chopped, ChopReport};
use crate::history_store::HistoryStore;
use crate::history_tree::{
    derive_event_leaf, leaf_outcome, retire_deleted_event_leaf, retired, vault,
    DeriveEventLeafReport, RetireDeletedEventLeafReport, Vault,
};
use crate::key_rotation::{
    rotate_recipient_key, rotation_outcome, RotateRecipientKeyReport, RotationEvents,
};
use crate::key_unwrap::{
    derive_key_secrets, pending_keys, unwrapped_upto, without_keys, DeriveReport,
};
use crate::keys::{KeyState, KeyStore};
use crate::pending_leaves::{drain_pending_message_leaves, leaves_drained, DrainPendingLeavesReport};
use crate::store::{Store, StoreState};
use crate::table::{at_most, listing, Table};

verus! {

/// Work on keys and history.
pub enum Work<'a> {
    /// Take in the secrets of at most `batch_size` wraps; `opened` holds what was found in them,
    /// by the id of the wrap.
    DeriveKeySecrets { batch_size: usize, opened: &'a Table<Vec<u8>> },
    /// Replace the recipient key of this device by the one in `rotation`.
    RotateRecipientKey { workspace_id: EventId, rotation: &'a RotationEvents },
    /// Derive the leaf of an event, or find it.
    DeriveEventLeaf {
        workspace_id: EventId,
        removal_frontier_id: EventId,
        created_at_ms: u64,
        event_id_in_minute: EventId,
    },
    /// Retire the leaf of an event.
    RetireDeletedEventLeaf {
        workspace_id: EventId,
        removal_frontier_id: EventId,
        created_at_ms: u64,
        event_id_in_minute: EventId,
    },
    /// Derive the leaves that at most `batch_size` blocked events name.
    DrainPendingMessageLeaves { batch_size: usize },
    /// Take every minute below a floor off the time axis.
    ChopTimeTreePrefix { workspace_id: EventId, removal_frontier_id: EventId, floor_minute: u64 },
}

/// What came of the work.
#[derive(Debug, Clone, Copy, PartialEq, Eq)]
pub enum Output {
    DerivedKeySecrets(DeriveReport),
    RotatedRecipientKey(RotateRecipientKeyReport),
    DerivedEventLeaf(DeriveEventLeafReport),
    RetiredDeletedEventLeaf(RetireDeletedEventLeafReport),
    DrainedPendingMessageLeaves(DrainPendingLeavesReport),
    ChoppedTimeTreePrefix(ChopReport),
}

/// The stores that the work is on.
pub struct EncryptionState {
    pub keys: KeyState,
    pub vault: Vault,
    pub store: StoreState,
    pub messages: Map<Seq<u8>, MessageTombstoneRow>,
}

/// The state of some stores.
pub open spec fn encryption_state(
    keys: KeyStore,
    history: HistoryStore,
    store: Store,
    messages: Table<MessageTombstoneRow>,
) -> EncryptionState {
    EncryptionState {
        keys: keys@,
        vault: vault(history, store.events),
        store: store@,
        messages: messages@,
    }
}

/// A state with another vault: the store holds the events of the vault.
pub open spec fn with_vault(e: EncryptionState, v: Vault) -> EncryptionState {
    EncryptionState { vault: v, store: StoreState { events: v.events, ..e.store }, ..e }
}

/// What a unit of work does to keys and history, before the events that it released are applied.
pub open spec fn work_done<R: EventRegistry>(
    registry: &R,
    before: EncryptionState,
    work: Work<'_>,
    after: EncryptionState,
    r: Result<Output, String>,
) -> bool {
    match work {
        Work::DeriveKeySecrets { batch_size, opened } => {
            let pending = pending_keys(before.keys, batch_size);
            let u = unwrapped_upto(
                before.keys,
                before.vault,
                pending,
                batch_size as nat,
                opened@,
                pending.len() as int,
            );
            &&& r matches Ok(Output::DerivedKeySecrets(report)) && report.holds(u)
            &&& after == with_vault(
                EncryptionState {
                    keys: KeyState {
                        pending: without_keys(before.keys.pending, u.consumed),
                        ..before.keys
                    },
                    ..before
                },
                u.vault,
            )
        },
        Work::RotateRecipientKey { workspace_id, rotation } => {
            &&& after.vault.history == before.vault.history
            &&& after.vault.events == after.store.events
            &&& after.messages == before.messages
            &&& match r {
                Ok(Output::RotatedRecipientKey(report)) => rotation_outcome(
                    registry,
                    before.keys,
                    before.store,
                    workspace_id,
                    *rotation,
                    after.keys,
                    after.store,
                    Ok(report),
                ),
                Ok(_) => false,
                Err(e) => rotation_outcome(
                    registry,
                    before.keys,
                    before.store,
                    workspace_id,
                    *rotation,
                    after.keys,
                    after.store,
                    Err(e),
                ),
            }
        },
        Work::DeriveEventLeaf {
            workspace_id,
            removal_frontier_id,
            created_at_ms,
            event_id_in_minute,
        } => match leaf_outcome(
            before.vault,
            Frontier { workspace_id, removal_frontier_id },
            created_at_ms,
            event_id_in_minute,
        ) {
            Ok((v, report)) => {
                &&& r == Ok::<Output, String>(Output::DerivedEventLeaf(report))
                &&& after == with_vault(before, v)
            },
            Err(e) => {
                &&& r matches Err(x) && x@ == e
                &&& after == before
            },
        },
        Work::RetireDeletedEventLeaf {
            workspace_id,
            removal_frontier_id,
            created_at_ms,
            event_id_in_minute,
        } => {
            let (v, report) = retired(
                before.vault,
                Frontier { workspace_id, removal_frontier_id },
                (created_at_ms as int / 60_000) as u64,
                event_id_in_minute,
            );
            &&& r == Ok::<Output, String>(Output::RetiredDeletedEventLeaf(report))
            &&& after == with_vault(before, v)
        },
        Work::DrainPendingMessageLeaves { batch_size } => {
            let keys = at_most(listing(edge_keys(before.vault.events.edges)), batch_size);
            match leaves_drained(before.vault, keys, batch_size as nat, keys.len() as int) {
                Ok((v, t)) => {
                    &&& r matches Ok(Output::DrainedPendingMessageLeaves(report)) && report.holds(
                        t,
                    )
                    &&& after == with_vault(before, v)
                },
                Err((v, _, e)) => {
                    &&& r matches Err(x) && x@ == e
                    &&& after == with_vault(before, v)
                },
            }
        },
        Work::ChopTimeTreePrefix { workspace_id, removal_frontier_id, floor_minute } => {
            let (v, messages, report) = chopped(
                before.vault,
                before.messages,
                Frontier { workspace_id, removal_frontier_id },
                floor_minute,
            );
            &&& r == Ok::<Output, String>(Output::ChoppedTimeTreePrefix(report))
            &&& after == with_vault(EncryptionState { messages, ..before }, v)
        },
    }
}

/// Whether a unit of work stores an event that it leaves to be followed by the projection of
/// what is ready: a derived secret, or a node of history. A rotation applies its own events.
pub open spec fn work_admits(before: EncryptionState, work: Work<'_>) -> bool {
    match work {
        Work::DeriveKeySecrets { batch_size, opened } => {
            let pending = pending_keys(before.keys, batch_size);
            unwrapped_upto(
                before.keys,
                before.vault,
                pending,
                batch_size as nat,
                opened@,
                pending.len() as int,
            ).derived > 0
        },
        Work::RotateRecipientKey { .. } => false,
        Work::DeriveEventLeaf {
            workspace_id,
            removal_frontier_id,
            created_at_ms,
            event_id_in_minute,
        } => match leaf_outcome(
            before.vault,
            Frontier { workspace_id, removal_frontier_id },
            created_at_ms,
            event_id_in_minute,
        ) {
            Ok((_, report)) => report.admitted_events > 0,
            Err(_) => false,
        },
        Work::RetireDeletedEventLeaf {
            workspace_id,
            removal_frontier_id,
            created_at_ms,
            event_id_in_minute,
        } => retired(
            before.vault,
            Frontier { workspace_id, removal_frontier_id },
            (created_at_ms as int / 60_000) as u64,
            event_id_in_minute,
        ).1.admitted_events > 0,
        Work::DrainPendingMessageLeaves { batch_size } => {
            let keys = at_most(listing(edge_keys(before.vault.events.edges)), batch_size);
            match leaves_drained(before.vault, keys, batch_size as nat, keys.len() as int) {
                Ok((_, t)) => t.stored,
                Err((_, stored, _)) => stored,
            }
        },
        Work::ChopTimeTreePrefix { workspace_id, removal_frontier_id, floor_minute } => chop_admits(
            before.vault,
            Frontier { workspace_id, removal_frontier_id },
            floor_minute,
        ),
    }
}

/// Ready events were applied until none was left, or until one failed; keys and history stay.
pub open spec fn released<R: EventRegistry>(
    registry: &R,
    before: EncryptionState,
    after: EncryptionState,
    r: Result<ApplyReadyReport, String>,
) -> bool {
    &&& after.keys == before.keys
    &&& after.messages == before.messages
    &&& after.vault.history == before.vault.history
    &&& after.vault.events == after.store.events
    &&& ready_applied(registry, before.store, after.store, r)
}

/// What a unit of work leaves and returns. Where it stored an event, the events that wait for
/// nothing any more are applied too; where it stored none, no event is applied, ready or not.
pub open spec fn run_done<R: EventRegistry>(
    registry: &R,
    before: EncryptionState,
    work: Work<'_>,
    after: EncryptionState,
    r: Result<Output, String>,
) -> bool {
    if !work_admits(before, work) {
        work_done(registry, before, work, after, r)
    } else {
        exists|mid: EncryptionState, s: Result<Output, String>, d: Result<
            ApplyReadyReport,
            String,
        >|
            #![trigger work_done(registry, before, work, mid, s), released(registry, mid, after, d)]
            work_done(registry, before, work, mid, s) && released(registry, mid, after, d) && r
                == after_ready(s, d)
    }
}

/// Run one unit of work and, where it stored an event, apply what is ready.
pub fn run<R: EventRegistry>(
    keys: &mut KeyStore,
    history: &mut HistoryStore,
    store: &mut Store,
    messages: &mut Table<MessageTombstoneRow>,
    registry: &R,
    work: Work<'_>,
) -> (r: Result<Output, String>)
    requires
        old(keys).wf(),
        old(history).wf(),
        old(store).wf(),
        old(messages).wf(),
        valid_message_tombstones(old(messages)@),
        work matches Work::DeriveKeySecrets { opened, .. } ==> opened.wf(),
    ensures
        final(keys).wf(),
        final(history).wf(),
        final(store).wf(),
        final(messages).wf(),
        valid_message_tombstones(final(messages)@),
        run_done(
            registry,
            encryption_state(*old(keys), *old(history), *old(store), *old(messages)),
            work,
            encryption_state(*final(keys), *final(history), *final(store), *final(messages)),
            r,
        ),
{
    let ghost before = encryption_state(*keys, *history, *store, *messages);
    let ghost task = work;
    let (done, stored) = run_work(keys, history, store, messages, registry, work);
    if !stored {
        return done;
    }
    let ghost mid = encryption_state(*keys, *history, *store, *messages);
    let ghost s = done;
    let drained = events::run(
        store,
        registry,
        DrainUntilIdle { batch_size: DEFAULT_READY_BATCH },
    );
    let ghost d = drained;
    let ghost after = encryption_state(*keys, *history, *store, *messages);
    assert(work_done(registry, before, task, mid, s) && released(registry, mid, after, d));
    match done {
        Err(e) => Err(e),
        Ok(output) => match drained {
            Err(e) => Err(e),
            Ok(_) => Ok(output),
        },
    }
}

fn run_work<R: EventRegistry>(
    keys: &mut KeyStore,
    history: &mut HistoryStore,
    store: &mut Store,
    messages: &mut Table<MessageTombstoneRow>,
    registry: &R,
    work: Work<'_>,
) -> (r: (Result<Output, String>, bool))
    requires
        old(keys).wf(),
        old(history).wf(),
        old(store).wf(),
        old(messages).wf(),
        valid_message_tombstones(old(messages)@),
        work matches Work::DeriveKeySecrets { opened, .. } ==> opened.wf(),
    ensures
        final(keys).wf(),
        final(history).wf(),
        final(store).wf(),
        final(messages).wf(),
        valid_message_tombstones(final(messages)@),
        work_done(
            registry,
            encryption_state(*old(keys), *old(history), *old(store), *old(messages)),
            work,
            encryption_state(*final(keys), *final(history), *final(store), *final(messages)),
            r.0,
        ),
        r.1 == work_admits(
            encryption_state(*old(keys), *old(history), *old(store), *old(messages)),
            work,
        ),
{
    match work {
        Work::DeriveKeySecrets { batch_size, opened } => {
            let report = derive_key_secrets(
                keys,
                history,
                &mut store.events,
                batch_size,
                opened,
            );
            (Ok(Output::DerivedKeySecrets(report)), report.admitted_events > 0)
        },
        Work::RotateRecipientKey { workspace_id, rotation } => match rotate_recipient_key(
            keys,
            store,
            registry,
            &workspace_id,
            rotation,
        ) {
            Ok(report) => (Ok(Output::RotatedRecipientKey(report)), false),
            Err(e) => (Err(e), false),
        },
        Work::DeriveEventLeaf {
            workspace_id,
            removal_frontier_id,
            created_at_ms,
            event_id_in_minute,
        } => match derive_event_leaf(
            history,
            &mut store.events,
            Frontier { workspace_id, removal_frontier_id },
            created_at_ms,
            event_id_in_minute,
        ) {
            Ok(report) => (Ok(Output::DerivedEventLeaf(report)), report.admitted_events > 0),
            Err(e) => (Err(e), false),
        },
        Work::RetireDeletedEventLeaf {
            workspace_id,
            removal_frontier_id,
            created_at_ms,
            event_id_in_minute,
        } => {
            let report = retire_deleted_event_leaf(
                history,
                &mut store.events,
                Frontier { workspace_id, removal_frontier_id },
                created_at_ms,
                event_id_in_minute,
            );
            (Ok(Output::RetiredDeletedEventLeaf(report)), report.admitted_events > 0)
        },
        Work::DrainPendingMessageLeaves { batch_size } => {
            let (drained, stored) = drain_pending_message_leaves(
                history,
                &mut store.events,
                batch_size,
            );
            match drained {
                Ok(report) => (Ok(Output::DrainedPendingMessageLeaves(report)), stored),
                Err(e) => (Err(e), stored),
            }
        },
        Work::ChopTimeTreePrefix { workspace_id, removal_frontier_id, floor_minute } => {
            let (report, stored) = chop_time_tree_prefix(
                history,
                &mut store.events,
                messages,
                Frontier { workspace_id, removal_frontier_id },
                floor_minute,
            );
            (Ok(Output::ChoppedTimeTreePrefix(report)), stored)
        },
    }
}

// ---------------------------------------------------------------------------
// Laws
// ---------------------------------------------------------------------------

/// Work that stores no event projects nothing: no row of the store changes, whatever is ready.
/// A rotation is the exception, as it applies its own events.
pub proof fn law_idle_work_projects_nothing<R: EventRegistry>(
    registry: &R,
    before: EncryptionState,
    work: Work<'_>,
    after: EncryptionState,
    r: Result<Output, String>,
)
    requires
        !(work is RotateRecipientKey),
        !work_admits(before, work),
        run_done(registry, before, work, after, r),
    ensures
        after.store.rows == before.store.rows,
{
}

/// Work that stored an event and succeeded leaves no event ready.
pub proof fn law_admitting_work_leaves_nothing_ready<R: EventRegistry>(
    registry: &R,
    before: EncryptionState,
    work: Work<'_>,
    after: EncryptionState,
    r: Result<Output, String>,
)
    requires
        work_admits(before, work),
        run_done(registry, before, work, after, r),
        r is Ok,
    ensures
        !any_ready(after.store.events),
{
}

/// Applying what was released changes neither keys nor history: they are as the work left them.
pub proof fn law_release_keeps_keys_and_history<R: EventRegistry>(
    registry: &R,
    before: EncryptionState,
    work: Work<'_>,
    after: EncryptionState,
    r: Result<Output, String>,
)
    requires
        run_done(registry, before, work, after, r),
    ensures
        exists|mid: EncryptionState, s: Result<Output, String>|
            #[trigger] work_done(registry, before, work, mid, s) && after.keys == mid.keys
                && after.vault.history == mid.vault.history && after.messages == mid.messages,
{
}

} // verus!
