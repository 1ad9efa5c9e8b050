//! Rotating the recipient key of this device in a workspace.
//!
//! The new key pair and the signed events are made outside; here it is decided whether the
//! device may rotate and which keys it retires, the events are admitted in order, and what
//! belonged to the retired keys is dropped.
use vstd::prelude::*;
use crate::bytes::{has_prefix, id_eq, id_pair, lemma_id_ext, EventId};
use crate::endpoints::{
    endpoint_membership, local_endpoint, local_endpoint_of, membership_of, EndpointMembershipRow,
};
use crate::events::{
    self, admitted_batch, drained_until_idle, proposal_views, AdmitAndDrain, ApplyReadyReport,
    saturated, CommandOutput, EventRegistry, ProposalView, ProposedEvent, DEFAULT_READY_BATCH,
};
use crate::hash::{event_id, event_id_of};
use crate::key_unwrap::{lemma_local_key, without_keys};
use crate::keys::{
    find_local_key, key_of_local, key_of_recipient, key_of_wrap, key_wrap_key, lemma_keyed_remove,
    lemma_values_under, list_under, local_key_for, valid_keys, values_under, KeyState, KeyStore,
    KeyWrapRow, LocalRecipientKeyRow, RecipientKeyRow,
};
use crate::purging::{
    law_purge_keeps_labels_and_other_events, purge_event_storage_in_tx, purged_store,
};
use crate::store::{Store, StoreState};
use crate::tables::Rows;
use crate::text::{prefixed, text};
use crate::types::{EventRecord, RecordView};

verus! {

/// A recipient key that is retired, with the local event behind it.
#[derive(Debug, Clone, Copy, PartialEq, Eq)]
pub struct RetiredRecipientKey {
    pub recipient_key_id: EventId,
    pub local_recipient_key_id: EventId,
}

// ---------------------------------------------------------------------------
// Who may rotate, and what is retired
// ---------------------------------------------------------------------------

/// The membership under which this device may rotate its key in a workspace, or why it may
/// not.
pub open spec fn rotation_membership(m: Rows, workspace_id: EventId) -> Result<
    EndpointMembershipRow,
    Seq<char>,
> {
    match local_endpoint_of(m) {
        Err(e) => Err(e),
        Ok(local) => match membership_of(m, local.endpoint, workspace_id) {
            Err(e) => Err(e),
            Ok(None) => Err("local endpoint is not joined to workspace"@),
            Ok(Some(membership)) => if membership.signing_public_key != local.signing_public_key {
                Err("local endpoint signing key does not match workspace membership"@)
            } else if !(membership.endpoint_role is Device) {
                Err("local endpoint role cannot receive key wraps"@)
            } else {
                Ok(membership)
            },
        },
    }
}

/// Find the membership under which this device may rotate its key in a workspace.
pub fn local_membership(store: &Store, workspace_id: &EventId) -> (r: Result<
    EndpointMembershipRow,
    String,
>)
    requires
        store.wf(),
    ensures
        match rotation_membership(store@.rows, *workspace_id) {
            Ok(m) => r matches Ok(x) && x == m,
            Err(e) => r matches Err(x) && x@ == e,
        },
{
    let local = match local_endpoint(store) {
        Ok(local) => local,
        Err(e) => {
            return Err(e);
        },
    };
    let membership = match endpoint_membership(store, &local.endpoint, workspace_id) {
        Ok(Some(membership)) => membership,
        Ok(None) => {
            return Err(text("local endpoint is not joined to workspace"));
        },
        Err(e) => {
            return Err(e);
        },
    };
    if !id_eq(&membership.signing_public_key, &local.signing_public_key) {
        return Err(text("local endpoint signing key does not match workspace membership"));
    }
    if !membership.endpoint_role.can_receive_key_wraps() {
        return Err(text("local endpoint role cannot receive key wraps"));
    }
    Ok(membership)
}

/// A published key of this device that is not retired yet.
pub open spec fn is_active(
    k: KeyState,
    workspace_id: EventId,
    endpoint_shared_id: EventId,
    row: RecipientKeyRow,
) -> bool {
    &&& row.endpoint_shared_id == endpoint_shared_id
    &&& local_key_for(values_under(k.locals, workspace_id@), row.recipient_key) is Some
    &&& !k.tombstones.contains_key(workspace_id@ + row.recipient_key_id@)
}

/// A published key of this device as a key to retire.
pub open spec fn as_retired(k: KeyState, workspace_id: EventId, row: RecipientKeyRow) -> RetiredRecipientKey {
    RetiredRecipientKey {
        recipient_key_id: row.recipient_key_id,
        local_recipient_key_id: (local_key_for(
            values_under(k.locals, workspace_id@),
            row.recipient_key,
        )->Some_0).local_recipient_key_id,
    }
}

/// The published keys of this device in a workspace that are not retired yet, in the order of
/// their ids.
pub open spec fn active_keys(k: KeyState, workspace_id: EventId, endpoint_shared_id: EventId) -> Seq<
    RetiredRecipientKey,
> {
    values_under(k.recipients, workspace_id@).filter(
        |row: RecipientKeyRow| is_active(k, workspace_id, endpoint_shared_id, row),
    ).map_values(|row: RecipientKeyRow| as_retired(k, workspace_id, row))
}

/// List the published keys of this device in a workspace that are not retired yet.
pub fn active_local_recipient_keys(
    keys: &KeyStore,
    workspace_id: &EventId,
    endpoint_shared_id: &EventId,
) -> (r: Vec<RetiredRecipientKey>)
    requires
        keys.wf(),
    ensures
        r@ == active_keys(keys@, *workspace_id, *endpoint_shared_id),
{
    let locals = list_under(&keys.locals, workspace_id.as_slice());
    let rows = list_under(&keys.recipients, workspace_id.as_slice());
    let ghost keep = |row: RecipientKeyRow|
        is_active(keys@, *workspace_id, *endpoint_shared_id, row);
    let ghost name = |row: RecipientKeyRow| as_retired(keys@, *workspace_id, row);
    let mut out: Vec<RetiredRecipientKey> = Vec::new();
    let mut i: usize = 0;
    proof {
        reveal(Seq::filter);
        assert(rows@.take(0).filter(keep).map_values(name) =~= Seq::empty());
    }
    while i < rows.len()
        invariant
            keys.wf(),
            i <= rows@.len(),
            locals@ == values_under(keys@.locals, workspace_id@),
            keep == (|row: RecipientKeyRow|
                is_active(keys@, *workspace_id, *endpoint_shared_id, row)),
            name == (|row: RecipientKeyRow| as_retired(keys@, *workspace_id, row)),
            out@ == rows@.take(i as int).filter(keep).map_values(name),
        decreases rows.len() - i,
    {
        let row = rows[i];
        proof {
            reveal(Seq::filter);
            assert(rows@.take(i + 1).drop_last() =~= rows@.take(i as int));
            assert(rows@.take(i + 1).last() == rows@[i as int]);
        }
        if id_eq(&row.endpoint_shared_id, endpoint_shared_id) {
            if let Some(local) = find_local_key(&locals, &row.recipient_key) {
                let key = id_pair(workspace_id, &row.recipient_key_id);
                if !keys.tombstones.contains(key.as_slice()) {
                    out.push(
                        RetiredRecipientKey {
                            recipient_key_id: row.recipient_key_id,
                            local_recipient_key_id: local.local_recipient_key_id,
                        },
                    );
                    proof {
                        let kept = rows@.take(i as int).filter(keep);
                        assert(kept.push(row).map_values(name) =~= kept.map_values(name).push(
                            as_retired(keys@, *workspace_id, row),
                        ));
                    }
                }
            }
        }
        i = i + 1;
    }
    assert(rows@.take(i as int) =~= rows@);
    out
}

// ---------------------------------------------------------------------------
// Dropping what belonged to retired keys
// ---------------------------------------------------------------------------

/// A wrap was made for one of some retired keys.
pub open spec fn wrap_is_retired(retired: Seq<RetiredRecipientKey>, wrap: KeyWrapRow) -> bool {
    exists|i: int|
        0 <= i < retired.len() && (#[trigger] retired[i]).recipient_key_id == wrap.recipient_key_id
}

/// The wraps of a workspace that were made for retired keys, in the order of their keys.
pub open spec fn retired_wraps(
    k: KeyState,
    workspace_id: EventId,
    retired: Seq<RetiredRecipientKey>,
) -> Seq<KeyWrapRow> {
    values_under(k.wraps, workspace_id@).filter(
        |wrap: KeyWrapRow| wrap_is_retired(retired, wrap),
    )
}

/// The keys of some wraps.
pub open spec fn wrap_keys(wraps: Seq<KeyWrapRow>) -> Set<Seq<u8>> {
    Set::new(
        |key: Seq<u8>|
            exists|i: int| 0 <= i < wraps.len() && key == key_of_wrap(#[trigger] wraps[i]),
    )
}

/// The keys of the local rows of some retired keys.
pub open spec fn local_keys(workspace_id: EventId, retired: Seq<RetiredRecipientKey>) -> Set<
    Seq<u8>,
> {
    Set::new(
        |key: Seq<u8>|
            exists|i: int|
                0 <= i < retired.len() && key == workspace_id@
                    + (#[trigger] retired[i]).local_recipient_key_id@,
    )
}

/// The store after the events of the first `n` retired keys are purged.
pub open spec fn keys_purged(s: StoreState, retired: Seq<RetiredRecipientKey>, n: int) -> StoreState
    decreases n,
{
    if n <= 0 {
        s
    } else {
        let p = keys_purged(s, retired, n - 1);
        purged_store(
            purged_store(p, retired[n - 1].recipient_key_id@),
            retired[n - 1].local_recipient_key_id@,
        )
    }
}

/// The store after the events of the first `n` wraps are purged.
pub open spec fn wraps_purged(s: StoreState, wraps: Seq<KeyWrapRow>, n: int) -> StoreState
    decreases n,
{
    if n <= 0 {
        s
    } else {
        purged_store(wraps_purged(s, wraps, n - 1), wraps[n - 1].key_wrap_id@)
    }
}

/// The key rows and the store without what belonged to some retired keys: their local rows,
/// the wraps made for them, queued or not, and the events behind all of these.
pub open spec fn material_purged(
    k: KeyState,
    s: StoreState,
    workspace_id: EventId,
    retired: Seq<RetiredRecipientKey>,
) -> (KeyState, StoreState) {
    if retired.len() == 0 {
        (k, s)
    } else {
        let wraps = retired_wraps(k, workspace_id, retired);
        (
            KeyState {
                locals: without_keys(k.locals, local_keys(workspace_id, retired)),
                wraps: without_keys(k.wraps, wrap_keys(wraps)),
                pending: without_keys(k.pending, wrap_keys(wraps)),
                ..k
            },
            wraps_purged(
                keys_purged(s, retired, retired.len() as int),
                wraps,
                wraps.len() as int,
            ),
        )
    }
}

fn is_retired(retired: &Vec<RetiredRecipientKey>, wrap: &KeyWrapRow) -> (r: bool)
    ensures
        r == wrap_is_retired(retired@, *wrap),
{
    let mut i: usize = 0;
    while i < retired.len()
        invariant
            i <= retired@.len(),
            forall|j: int|
                0 <= j < i ==> (#[trigger] retired@[j]).recipient_key_id != wrap.recipient_key_id,
        decreases retired.len() - i,
    {
        if id_eq(&retired[i].recipient_key_id, &wrap.recipient_key_id) {
            assert(retired@[i as int].recipient_key_id == wrap.recipient_key_id);
            return true;
        }
        i = i + 1;
    }
    false
}

fn list_retired_wraps(
    keys: &KeyStore,
    workspace_id: &EventId,
    retired: &Vec<RetiredRecipientKey>,
) -> (r: Vec<KeyWrapRow>)
    requires
        keys.wf(),
    ensures
        r@ == retired_wraps(keys@, *workspace_id, retired@),
{
    let wraps = list_under(&keys.wraps, workspace_id.as_slice());
    let ghost keep = |wrap: KeyWrapRow| wrap_is_retired(retired@, wrap);
    let mut out: Vec<KeyWrapRow> = Vec::new();
    let mut i: usize = 0;
    proof {
        reveal(Seq::filter);
        assert(wraps@.take(0).filter(keep) =~= Seq::empty());
    }
    while i < wraps.len()
        invariant
            i <= wraps@.len(),
            keep == (|wrap: KeyWrapRow| wrap_is_retired(retired@, wrap)),
            out@ == wraps@.take(i as int).filter(keep),
        decreases wraps.len() - i,
    {
        proof {
            reveal(Seq::filter);
            assert(wraps@.take(i + 1).drop_last() =~= wraps@.take(i as int));
            assert(wraps@.take(i + 1).last() == wraps@[i as int]);
        }
        if is_retired(retired, &wraps[i]) {
            out.push(wraps[i]);
        }
        i = i + 1;
    }
    assert(wraps@.take(i as int) =~= wraps@);
    out
}

/// Drop what belonged to some retired keys.
pub fn purge_retired_recipient_material(
    keys: &mut KeyStore,
    store: &mut Store,
    workspace_id: &EventId,
    retired: &Vec<RetiredRecipientKey>,
)
    requires
        old(keys).wf(),
        old(store).wf(),
    ensures
        final(keys).wf(),
        final(store).wf(),
        (final(keys)@, final(store)@) == material_purged(
            old(keys)@,
            old(store)@,
            *workspace_id,
            retired@,
        ),
{
    if retired.len() == 0 {
        return;
    }
    let wraps = list_retired_wraps(keys, workspace_id, retired);
    let mut i: usize = 0;
    proof {
        assert(local_keys(*workspace_id, retired@.take(0)) =~= Set::empty());
        assert(keys@.locals =~= without_keys(
            keys@.locals,
            local_keys(*workspace_id, retired@.take(0)),
        ));
    }
    while i < retired.len()
        invariant
            keys.wf(),
            store.wf(),
            i <= retired@.len(),
            keys@ == (KeyState {
                locals: without_keys(
                    old(keys)@.locals,
                    local_keys(*workspace_id, retired@.take(i as int)),
                ),
                ..old(keys)@
            }),
            store@ == keys_purged(old(store)@, retired@, i as int),
        decreases retired.len() - i,
    {
        let key = id_pair(workspace_id, &retired[i].local_recipient_key_id);
        proof {
            lemma_keyed_remove(
                keys@.locals,
                |row: LocalRecipientKeyRow| key_of_local(row),
                key@,
            );
        }
        let _ = keys.locals.remove(key.as_slice());
        let _ = purge_event_storage_in_tx(store, &retired[i].recipient_key_id);
        let _ = purge_event_storage_in_tx(store, &retired[i].local_recipient_key_id);
        proof {
            let (a, b) = (retired@.take(i as int), retired@.take(i + 1));
            assert forall|x: Seq<u8>| #[trigger] local_keys(*workspace_id, b).contains(x)
                <==> local_keys(*workspace_id, a).contains(x) || x == key@ by {
                if local_keys(*workspace_id, b).contains(x) {
                    let j = choose|j: int|
                        0 <= j < b.len() && x == workspace_id@
                            + (#[trigger] b[j]).local_recipient_key_id@;
                    if j < i {
                        assert(a[j] == b[j]);
                    }
                }
                if local_keys(*workspace_id, a).contains(x) {
                    let j = choose|j: int|
                        0 <= j < a.len() && x == workspace_id@
                            + (#[trigger] a[j]).local_recipient_key_id@;
                    assert(b[j] == a[j]);
                }
                assert(b[i as int] == retired@[i as int]);
            }
            assert(keys@.locals =~= without_keys(
                old(keys)@.locals,
                local_keys(*workspace_id, b),
            ));
        }
        i = i + 1;
    }
    assert(retired@.take(i as int) =~= retired@);
    let ghost mid = keys@;
    let mut j: usize = 0;
    proof {
        assert(wrap_keys(wraps@.take(0)) =~= Set::empty());
        assert(keys@.wraps =~= without_keys(mid.wraps, wrap_keys(wraps@.take(0))));
        assert(keys@.pending =~= without_keys(mid.pending, wrap_keys(wraps@.take(0))));
    }
    let ghost purged = store@;
    while j < wraps.len()
        invariant
            keys.wf(),
            store.wf(),
            j <= wraps@.len(),
            keys@ == (KeyState {
                wraps: without_keys(mid.wraps, wrap_keys(wraps@.take(j as int))),
                pending: without_keys(mid.pending, wrap_keys(wraps@.take(j as int))),
                ..mid
            }),
            store@ == wraps_purged(purged, wraps@, j as int),
        decreases wraps.len() - j,
    {
        let key = key_wrap_key(
            &wraps[j].workspace_id,
            &wraps[j].removal_frontier_id,
            &wraps[j].recipient_key_id,
        );
        proof {
            lemma_keyed_remove(keys@.wraps, |row: KeyWrapRow| key_of_wrap(row), key@);
        }
        let _ = keys.wraps.remove(key.as_slice());
        let _ = keys.pending.remove(key.as_slice());
        let _ = purge_event_storage_in_tx(store, &wraps[j].key_wrap_id);
        proof {
            let (a, b) = (wraps@.take(j as int), wraps@.take(j + 1));
            assert forall|x: Seq<u8>| #[trigger] wrap_keys(b).contains(x) <==> wrap_keys(
                a,
            ).contains(x) || x == key@ by {
                if wrap_keys(b).contains(x) {
                    let n = choose|n: int| 0 <= n < b.len() && x == key_of_wrap(#[trigger] b[n]);
                    if n < j {
                        assert(a[n] == b[n]);
                    }
                }
                if wrap_keys(a).contains(x) {
                    let n = choose|n: int| 0 <= n < a.len() && x == key_of_wrap(#[trigger] a[n]);
                    assert(b[n] == a[n]);
                }
                assert(b[j as int] == wraps@[j as int]);
            }
            assert(keys@.wraps =~= without_keys(mid.wraps, wrap_keys(b)));
            assert(keys@.pending =~= without_keys(mid.pending, wrap_keys(b)));
        }
        j = j + 1;
    }
    assert(wraps@.take(j as int) =~= wraps@);
}

// ---------------------------------------------------------------------------
// The rotation
// ---------------------------------------------------------------------------

/// What is made outside for a rotation: the new key with the event that keeps it, the signed
/// event that publishes it, and for each retired key a signed tombstone.
pub struct RotationEvents {
    pub local_recipient: LocalRecipientKeyRow,
    pub local_record: EventRecord,
    pub recipient: RecipientKeyRow,
    pub recipient_record: EventRecord,
    pub tombstone_records: Vec<EventRecord>,
}

/// The result of a rotation.
#[derive(Debug, Clone, Copy, PartialEq, Eq)]
pub struct RotateRecipientKeyReport {
    pub old_active_recipient_keys: usize,
    pub tombstoned_recipient_keys: usize,
    pub local_recipient_key_id: Option<EventId>,
    pub recipient_key_id: Option<EventId>,
    pub admitted_events: usize,
}

/// The records of a rotation in the order in which they are admitted.
pub open spec fn rotation_records(r: RotationEvents) -> Seq<RecordView> {
    seq![r.local_record@, r.recipient_record@] + r.tombstone_records@.map_values(
        |t: EventRecord| t@,
    )
}

/// A record without receive metadata.
pub open spec fn plain_proposal(record: RecordView) -> ProposalView {
    ProposalView { record, receive: None }
}

/// A record was admitted, with `inserted` new events, and what became ready was applied.
pub open spec fn admitted_then_drained<R: EventRegistry>(
    reg: &R,
    before: StoreState,
    record: RecordView,
    after: StoreState,
    inserted: int,
) -> bool {
    admitted_batch(reg, before, seq![plain_proposal(record)]) matches Ok((mid, t)) && t.inserted
        == inserted && exists|report: ApplyReadyReport| #[trigger]
        drained_until_idle(reg, mid, DEFAULT_READY_BATCH as nat, after, Ok(report))
}

/// A record was refused, or what became ready could not be applied.
pub open spec fn admission_failed<R: EventRegistry>(
    reg: &R,
    before: StoreState,
    record: RecordView,
    after: StoreState,
    error: String,
) -> bool {
    match admitted_batch(reg, before, seq![plain_proposal(record)]) {
        Err(e) => error@ == e && after == before,
        Ok((mid, t)) => drained_until_idle(
            reg,
            mid,
            DEFAULT_READY_BATCH as nat,
            after,
            Err(error),
        ),
    }
}

/// Admit a record and apply what became ready.
fn admit_record<R: EventRegistry>(store: &mut Store, registry: &R, record: &EventRecord) -> (r:
    Result<usize, String>)
    requires
        old(store).wf(),
    ensures
        final(store).wf(),
        match r {
            Ok(n) => n <= 1 && admitted_then_drained(
                registry,
                old(store)@,
                record@,
                final(store)@,
                n as int,
            ),
            Err(e) => admission_failed(registry, old(store)@, record@, final(store)@, e),
        },
{
    let mut events: Vec<ProposedEvent> = Vec::new();
    events.push(ProposedEvent::new(record.duplicate()));
    assert(proposal_views(events@) =~= seq![plain_proposal(record@)]);
    proof {
        events::lemma_tally_bounded(registry, old(store)@, seq![plain_proposal(record@)], 1);
    }
    let work = AdmitAndDrain {
        output: CommandOutput::with_proposed_events((), events),
        batch_size: DEFAULT_READY_BATCH,
    };
    match events::run(store, registry, work) {
        Ok(report) => {
            proof {
                let mid = admitted_batch(
                    registry,
                    old(store)@,
                    seq![plain_proposal(record@)],
                )->Ok_0.0;
                assert(drained_until_idle(
                    registry,
                    mid,
                    DEFAULT_READY_BATCH as nat,
                    store@,
                    Ok(report.drained),
                ));
            }
            Ok(report.admitted.inserted_events)
        },
        Err(e) => Err(e),
    }
}

/// Some records were admitted one after the other, each with what it made ready. `states`
/// holds the store before the first, and after each of them; `inserted` how many new events
/// each of them was.
pub open spec fn admitted_each<R: EventRegistry>(
    reg: &R,
    s: StoreState,
    records: Seq<RecordView>,
    states: Seq<StoreState>,
    inserted: Seq<int>,
) -> bool {
    &&& states.len() == inserted.len() + 1
    &&& states[0] == s
    &&& inserted.len() <= records.len()
    &&& forall|i: int|
        0 <= i < inserted.len() ==> admitted_then_drained(
            reg,
            states[i],
            records[i],
            states[i + 1],
            #[trigger] inserted[i],
        )
}

/// Whether the event of a record is applied.
pub open spec fn record_applied(s: StoreState, record: RecordView) -> bool {
    s.events.applied(event_id_of(record.canonical_bytes)@)
}

/// The key rows that follow from the first `n` records of a rotation: the new local key, the
/// published key, and the tombstones of the retired keys, each only where its event is applied.
pub open spec fn rotated_keys(
    k: KeyState,
    s: StoreState,
    r: RotationEvents,
    workspace_id: EventId,
    retired: Seq<RetiredRecipientKey>,
    n: int,
) -> KeyState
    decreases n,
{
    if n <= 0 {
        k
    } else {
        let p = rotated_keys(k, s, r, workspace_id, retired, n - 1);
        if !record_applied(s, rotation_records(r)[n - 1]) {
            p
        } else if n == 1 {
            let key = key_of_local(r.local_recipient);
            KeyState {
                locals: if p.locals.contains_key(key) {
                    p.locals
                } else {
                    p.locals.insert(key, r.local_recipient)
                },
                ..p
            }
        } else if n == 2 {
            let key = key_of_recipient(r.recipient);
            KeyState {
                recipients: if p.recipients.contains_key(key) {
                    p.recipients
                } else {
                    p.recipients.insert(key, r.recipient)
                },
                ..p
            }
        } else {
            KeyState {
                tombstones: p.tombstones.insert(
                    workspace_id@ + retired[n - 3].recipient_key_id@,
                    (),
                ),
                ..p
            }
        }
    }
}

/// Write the key rows that follow from the records of a rotation which are applied.
fn write_rotated_keys(
    keys: &mut KeyStore,
    store: &Store,
    rotation: &RotationEvents,
    workspace_id: &EventId,
    retired: &Vec<RetiredRecipientKey>,
)
    requires
        old(keys).wf(),
        store.wf(),
        rotation.tombstone_records@.len() == retired@.len(),
    ensures
        final(keys).wf(),
        final(keys)@ == rotated_keys(
            old(keys)@,
            store@,
            *rotation,
            *workspace_id,
            retired@,
            rotation_records(*rotation).len() as int,
        ),
{
    let ghost k = keys@;
    let ghost records = rotation_records(*rotation);
    proof {
        assert(records[0] == rotation.local_record@);
        assert(records[1] == rotation.recipient_record@);
    }
    let id = event_id(rotation.local_record.canonical_bytes.as_slice());
    if store.events.event_is_applied(&id) {
        let _ = keys.insert_local_recipient_key(rotation.local_recipient);
    }
    assert(rotated_keys(k, store@, *rotation, *workspace_id, retired@, 0) == k);
    assert(keys@ == rotated_keys(k, store@, *rotation, *workspace_id, retired@, 1));
    let id = event_id(rotation.recipient_record.canonical_bytes.as_slice());
    if store.events.event_is_applied(&id) {
        let _ = keys.insert_recipient_key(rotation.recipient);
    }
    let mut j: usize = 0;
    while j < retired.len()
        invariant
            keys.wf(),
            store.wf(),
            j <= retired@.len(),
            rotation.tombstone_records@.len() == retired@.len(),
            records == rotation_records(*rotation),
            keys@ == rotated_keys(k, store@, *rotation, *workspace_id, retired@, j + 2),
        decreases retired.len() - j,
    {
        assert(records[j + 2] == rotation.tombstone_records@[j as int]@);
        let id = event_id(rotation.tombstone_records[j].canonical_bytes.as_slice());
        if store.events.event_is_applied(&id) {
            let _ = keys.insert_tombstone(workspace_id, &retired[j].recipient_key_id);
        }
        j = j + 1;
    }
}

/// The parts of a rotation belong together: the published key is the new local key, under the
/// workspace and the membership, and each row is named by the event that keeps it.
pub open spec fn rotation_fits(
    r: RotationEvents,
    workspace_id: EventId,
    endpoint_shared_id: EventId,
) -> bool {
    &&& r.recipient.recipient_key == r.local_recipient.recipient_key
    &&& r.recipient.workspace_id == workspace_id
    &&& r.local_recipient.workspace_id == workspace_id
    &&& r.recipient.endpoint_shared_id == endpoint_shared_id
    &&& r.recipient.recipient_key_id == event_id_of(r.recipient_record@.canonical_bytes)
    &&& r.local_recipient.local_recipient_key_id == event_id_of(r.local_record@.canonical_bytes)
}

fn parts_fit(rotation: &RotationEvents, workspace_id: &EventId, endpoint_shared_id: &EventId) -> (r:
    bool)
    ensures
        r == rotation_fits(*rotation, *workspace_id, *endpoint_shared_id),
{
    let recipient_id = event_id(rotation.recipient_record.canonical_bytes.as_slice());
    let local_id = event_id(rotation.local_record.canonical_bytes.as_slice());
    id_eq(&rotation.recipient.recipient_key, &rotation.local_recipient.recipient_key) && id_eq(
        &rotation.recipient.workspace_id,
        workspace_id,
    ) && id_eq(&rotation.local_recipient.workspace_id, workspace_id) && id_eq(
        &rotation.recipient.endpoint_shared_id,
        endpoint_shared_id,
    ) && id_eq(&rotation.recipient.recipient_key_id, &recipient_id) && id_eq(
        &rotation.local_recipient.local_recipient_key_id,
        &local_id,
    )
}

/// What is said in front of a failure at place `n` of a rotation.
pub open spec fn rotation_error_prefix(n: int) -> Seq<char> {
    if n == 0 {
        "admit rotated local recipient key: "@
    } else if n == 1 {
        "admit rotated recipient key: "@
    } else {
        "admit recipient key tombstone: "@
    }
}

/// How many of some counts are not zero.
pub open spec fn count_nonzero(s: Seq<int>) -> int
    decreases s.len(),
{
    if s.len() == 0 {
        0
    } else {
        count_nonzero(s.drop_last()) + if s.last() > 0 {
            1int
        } else {
            0
        }
    }
}

/// The sum of some counts.
pub open spec fn sum_of(s: Seq<int>) -> int
    decreases s.len(),
{
    if s.len() == 0 {
        0
    } else {
        sum_of(s.drop_last()) + s.last()
    }
}

/// The report of a finished rotation.
pub open spec fn rotation_report(
    r: RotationEvents,
    retired: Seq<RetiredRecipientKey>,
    inserted: Seq<int>,
    report: RotateRecipientKeyReport,
) -> bool {
    &&& report.old_active_recipient_keys == retired.len()
    &&& report.tombstoned_recipient_keys == count_nonzero(inserted.skip(2))
    &&& report.local_recipient_key_id == Some(event_id_of(r.local_record@.canonical_bytes))
    &&& report.recipient_key_id == Some(event_id_of(r.recipient_record@.canonical_bytes))
    &&& report.admitted_events == saturated(sum_of(inserted))
}

/// A rotation ended well: every record was admitted, and then what belonged to the retired
/// keys was dropped.
pub open spec fn rotation_done<R: EventRegistry>(
    reg: &R,
    k: KeyState,
    s: StoreState,
    r: RotationEvents,
    workspace_id: EventId,
    retired: Seq<RetiredRecipientKey>,
    report: RotateRecipientKeyReport,
    k_after: KeyState,
    s_after: StoreState,
) -> bool {
    let records = rotation_records(r);
    exists|states: Seq<StoreState>, inserted: Seq<int>|
        {
            &&& #[trigger] admitted_each(reg, s, records, states, inserted)
            &&& inserted.len() == records.len()
            &&& rotation_report(r, retired, inserted, report)
            &&& (k_after, s_after) == material_purged(
                rotated_keys(
                    k,
                    states.last(),
                    r,
                    workspace_id,
                    retired,
                    records.len() as int,
                ),
                states.last(),
                workspace_id,
                retired,
            )
        }
}

/// Some records were admitted one after the other, and the next one failed.
pub open spec fn stopped_at<R: EventRegistry>(
    reg: &R,
    s: StoreState,
    records: Seq<RecordView>,
    states: Seq<StoreState>,
    inserted: Seq<int>,
    after: StoreState,
    e: String,
) -> bool {
    &&& admitted_each(reg, s, records, states, inserted)
    &&& inserted.len() < records.len()
    &&& admission_failed(reg, states.last(), records[inserted.len() as int], after, e)
}

/// A rotation broke off at one of its records.
pub open spec fn rotation_broke_off<R: EventRegistry>(
    reg: &R,
    k: KeyState,
    s: StoreState,
    r: RotationEvents,
    workspace_id: EventId,
    retired: Seq<RetiredRecipientKey>,
    error: Seq<char>,
    k_after: KeyState,
    s_after: StoreState,
) -> bool {
    let records = rotation_records(r);
    exists|states: Seq<StoreState>, inserted: Seq<int>, e: String|
        {
            &&& #[trigger] stopped_at(reg, s, records, states, inserted, s_after, e)
            &&& error == rotation_error_prefix(inserted.len() as int) + e@
            &&& k_after == rotated_keys(
                k,
                s_after,
                r,
                workspace_id,
                retired,
                records.len() as int,
            )
        }
}

/// What a rotation leaves and returns.
pub open spec fn rotation_outcome<R: EventRegistry>(
    reg: &R,
    k: KeyState,
    s: StoreState,
    workspace_id: EventId,
    rotation: RotationEvents,
    k_after: KeyState,
    s_after: StoreState,
    r: Result<RotateRecipientKeyReport, String>,
) -> bool {
    match rotation_membership(s.rows, workspace_id) {
        Err(e) => {
            &&& r matches Err(x) && x@ == e
            &&& k_after == k
            &&& s_after == s
        },
        Ok(membership) => {
            let retired = active_keys(k, workspace_id, membership.endpoint_shared_id);
            if rotation.tombstone_records@.len() != retired.len() {
                &&& r matches Err(x) && x@
                    == "rotation needs one tombstone for each active recipient key"@
                &&& k_after == k
                &&& s_after == s
            } else if !rotation_fits(rotation, workspace_id, membership.endpoint_shared_id) {
                &&& r matches Err(x) && x@ == "rotation events do not belong together"@
                &&& k_after == k
                &&& s_after == s
            } else {
                match r {
                    Ok(report) => rotation_done(
                        reg,
                        k,
                        s,
                        rotation,
                        workspace_id,
                        retired,
                        report,
                        k_after,
                        s_after,
                    ),
                    Err(e) => rotation_broke_off(
                        reg,
                        k,
                        s,
                        rotation,
                        workspace_id,
                        retired,
                        e@,
                        k_after,
                        s_after,
                    ),
                }
            }
        },
    }
}

/// Rotate the recipient key of this device in a workspace. Refused where the device may not
/// rotate, where the tombstones are not one for each key that is to be retired, and where the new
/// keys and events do not belong together. The records are admitted in order; where one fails the
/// rotation breaks off there. The key rows follow the events that are applied.
pub fn rotate_recipient_key<R: EventRegistry>(
    keys: &mut KeyStore,
    store: &mut Store,
    registry: &R,
    workspace_id: &EventId,
    rotation: &RotationEvents,
) -> (r: Result<RotateRecipientKeyReport, String>)
    requires
        old(keys).wf(),
        old(store).wf(),
    ensures
        final(keys).wf(),
        final(store).wf(),
        rotation_outcome(
            registry,
            old(keys)@,
            old(store)@,
            *workspace_id,
            *rotation,
            final(keys)@,
            final(store)@,
            r,
        ),
{
    let membership = match local_membership(store, workspace_id) {
        Ok(membership) => membership,
        Err(e) => {
            return Err(e);
        },
    };
    let retired = active_local_recipient_keys(keys, workspace_id, &membership.endpoint_shared_id);
    if rotation.tombstone_records.len() != retired.len() {
        return Err(text("rotation needs one tombstone for each active recipient key"));
    }
    if !parts_fit(rotation, workspace_id, &membership.endpoint_shared_id) {
        return Err(text("rotation events do not belong together"));
    }
    let ghost records = rotation_records(*rotation);
    let ghost k0 = keys@;
    let ghost s0 = store@;
    let ghost mut inserted: Seq<int> = Seq::empty();
    let ghost mut states: Seq<StoreState> = seq![store@];
    let mut report = RotateRecipientKeyReport {
        old_active_recipient_keys: retired.len(),
        tombstoned_recipient_keys: 0,
        local_recipient_key_id: Some(event_id(rotation.local_record.canonical_bytes.as_slice())),
        recipient_key_id: Some(event_id(rotation.recipient_record.canonical_bytes.as_slice())),
        admitted_events: 0,
    };
    proof {
        assert(admitted_each(registry, s0, records, states, inserted));
        assert(records[0] == rotation.local_record@);
        assert(records[1] == rotation.recipient_record@);
    }
    match admit_record(store, registry, &rotation.local_record) {
        Ok(n) => {
            report.admitted_events = report.admitted_events.saturating_add(n);
            proof {
                lemma_admitted_next(registry, s0, records, states, inserted, store@, n as int);
                inserted = inserted.push(n as int);
                states = states.push(store@);
                assert(inserted.drop_last() =~= Seq::empty());
            }
        },
        Err(e) => {
            let ghost failed = e;
            let error = prefixed("admit rotated local recipient key: ", e);
            write_rotated_keys(keys, store, rotation, workspace_id, &retired);
            proof {
                assert(stopped_at(registry, s0, records, states, inserted, store@, failed));
                assert(rotation_broke_off(
                    registry,
                    k0,
                    s0,
                    *rotation,
                    *workspace_id,
                    retired@,
                    error@,
                    keys@,
                    store@,
                ));
            }
            return Err(error);
        },
    }
    proof {
        assert(sum_of(inserted.drop_last()) == 0);
        assert(sum_of(inserted) == inserted[0]);
    }
    match admit_record(store, registry, &rotation.recipient_record) {
        Ok(n) => {
            report.admitted_events = report.admitted_events.saturating_add(n);
            proof {
                lemma_admitted_next(registry, s0, records, states, inserted, store@, n as int);
                let before = inserted;
                inserted = inserted.push(n as int);
                states = states.push(store@);
                assert(inserted.drop_last() =~= before);
            }
        },
        Err(e) => {
            let ghost failed = e;
            let error = prefixed("admit rotated recipient key: ", e);
            write_rotated_keys(keys, store, rotation, workspace_id, &retired);
            proof {
                assert(stopped_at(registry, s0, records, states, inserted, store@, failed));
                assert(rotation_broke_off(
                    registry,
                    k0,
                    s0,
                    *rotation,
                    *workspace_id,
                    retired@,
                    error@,
                    keys@,
                    store@,
                ));
            }
            return Err(error);
        },
    }
    let mut j: usize = 0;
    proof {
        assert(inserted.skip(2) =~= Seq::empty());
    }
    while j < retired.len()
        invariant
            keys.wf(),
            store.wf(),
            j <= retired@.len(),
            rotation.tombstone_records@.len() == retired@.len(),
            records == rotation_records(*rotation),
            k0 == old(keys)@,
            s0 == old(store)@,
            rotation_membership(s0.rows, *workspace_id) is Ok,
            retired@ == active_keys(
                k0,
                *workspace_id,
                (rotation_membership(s0.rows, *workspace_id)->Ok_0).endpoint_shared_id,
            ),
            admitted_each(registry, s0, records, states, inserted),
            states.last() == store@,
            inserted.len() == j + 2,
            keys@ == k0,
            rotation_fits(
                *rotation,
                *workspace_id,
                (rotation_membership(s0.rows, *workspace_id)->Ok_0).endpoint_shared_id,
            ),
            report.old_active_recipient_keys == retired@.len(),
            report.tombstoned_recipient_keys == count_nonzero(inserted.skip(2)),
            report.tombstoned_recipient_keys <= j,
            report.local_recipient_key_id == Some(
                event_id_of(rotation.local_record@.canonical_bytes),
            ),
            report.recipient_key_id == Some(
                event_id_of(rotation.recipient_record@.canonical_bytes),
            ),
            report.admitted_events == saturated(sum_of(inserted)),
            sum_of(inserted) >= 0,
        decreases retired.len() - j,
    {
        assert(records[j + 2] == rotation.tombstone_records@[j as int]@);
        match admit_record(store, registry, &rotation.tombstone_records[j]) {
            Ok(n) => {
                report.admitted_events = report.admitted_events.saturating_add(n);
                if n > 0 {
                    report.tombstoned_recipient_keys = report.tombstoned_recipient_keys + 1;
                }
                proof {
                    lemma_admitted_next(registry, s0, records, states, inserted, store@, n as int);
                    let before = inserted;
                    inserted = inserted.push(n as int);
                    states = states.push(store@);
                    assert(inserted.drop_last() =~= before);
                    assert(inserted.skip(2).drop_last() =~= before.skip(2));
                    assert(inserted.skip(2).last() == n);
                }
            },
            Err(e) => {
                let ghost failed = e;
                let error = prefixed("admit recipient key tombstone: ", e);
                write_rotated_keys(keys, store, rotation, workspace_id, &retired);
                proof {
                    assert(stopped_at(registry, s0, records, states, inserted, store@, failed));
                    assert(rotation_broke_off(
                        registry,
                        k0,
                        s0,
                        *rotation,
                        *workspace_id,
                        retired@,
                        error@,
                        keys@,
                        store@,
                    ));
                }
                return Err(error);
            },
        }
        j = j + 1;
    }
    write_rotated_keys(keys, store, rotation, workspace_id, &retired);
    purge_retired_recipient_material(keys, store, workspace_id, &retired);
    assert(rotation_done(
        registry,
        k0,
        s0,
        *rotation,
        *workspace_id,
        retired@,
        report,
        keys@,
        store@,
    ));
    Ok(report)
}

proof fn lemma_admitted_next<R: EventRegistry>(
    reg: &R,
    s: StoreState,
    records: Seq<RecordView>,
    states: Seq<StoreState>,
    inserted: Seq<int>,
    after: StoreState,
    m: int,
)
    requires
        inserted.len() < records.len(),
        admitted_each(reg, s, records, states, inserted),
        admitted_then_drained(reg, states.last(), records[inserted.len() as int], after, m),
    ensures
        admitted_each(reg, s, records, states.push(after), inserted.push(m)),
{
    assert forall|i: int| 0 <= i < inserted.push(m).len() implies admitted_then_drained(
        reg,
        states.push(after)[i],
        records[i],
        states.push(after)[i + 1],
        #[trigger] inserted.push(m)[i],
    ) by {
        if i < inserted.len() {
            assert(admitted_then_drained(reg, states[i], records[i], states[i + 1], inserted[i]));
        }
    }
}

// ---------------------------------------------------------------------------
// Laws
// ---------------------------------------------------------------------------

proof fn lemma_wraps_purged_only_removes(s: StoreState, wraps: Seq<KeyWrapRow>, n: int, id: Seq<u8>)
    requires
        !s.events.events.contains_key(id),
    ensures
        !wraps_purged(s, wraps, n).events.events.contains_key(id),
    decreases n,
{
    if n > 0 {
        lemma_wraps_purged_only_removes(s, wraps, n - 1, id);
    }
}

proof fn lemma_keys_are_purged(s: StoreState, retired: Seq<RetiredRecipientKey>, n: int, i: int)
    requires
        0 <= i < n <= retired.len(),
    ensures
        !keys_purged(s, retired, n).events.events.contains_key(retired[i].recipient_key_id@),
        !keys_purged(s, retired, n).events.events.contains_key(retired[i].local_recipient_key_id@),
    decreases n,
{
    if i < n - 1 {
        lemma_keys_are_purged(s, retired, n - 1, i);
    }
}

/// What belonged to a retired recipient key is dropped: its secret is gone, and so are its own
/// bytes and those of the local event behind it.
pub proof fn law_retired_key_material_is_dropped(
    k: KeyState,
    s: StoreState,
    workspace_id: EventId,
    retired: Seq<RetiredRecipientKey>,
    i: int,
)
    requires
        0 <= i < retired.len(),
    ensures
        ({
            let (k_after, s_after) = material_purged(k, s, workspace_id, retired);
            let key = retired[i];
            &&& !k_after.locals.contains_key(workspace_id@ + key.local_recipient_key_id@)
            &&& !s_after.events.events.contains_key(key.recipient_key_id@)
            &&& !s_after.events.events.contains_key(key.local_recipient_key_id@)
        }),
{
    let wraps = retired_wraps(k, workspace_id, retired);
    let key = retired[i];
    let mid = keys_purged(s, retired, retired.len() as int);
    lemma_keys_are_purged(s, retired, retired.len() as int, i);
    lemma_wraps_purged_only_removes(mid, wraps, wraps.len() as int, key.recipient_key_id@);
    lemma_wraps_purged_only_removes(mid, wraps, wraps.len() as int, key.local_recipient_key_id@);
    assert(local_keys(workspace_id, retired).contains(
        workspace_id@ + key.local_recipient_key_id@,
    ));
}

/// A published key of this device is in use: it is published under its membership, its private
/// half is here, and it has no tombstone.
pub open spec fn key_is_in_use(
    k: KeyState,
    workspace_id: EventId,
    endpoint_shared_id: EventId,
    published: Seq<u8>,
) -> bool {
    let row = k.recipients[published];
    &&& k.recipients.contains_key(published)
    &&& has_prefix(published, workspace_id@)
    &&& row.endpoint_shared_id == endpoint_shared_id
    &&& !k.tombstones.contains_key(workspace_id@ + row.recipient_key_id@)
    &&& exists|l: Seq<u8>| #[trigger]
        k.locals.contains_key(l) && has_prefix(l, workspace_id@) && k.locals[l].recipient_key
            == row.recipient_key
}

/// A key to retire names a published key and the local key with its private half.
pub open spec fn names_key_pair(
    k: KeyState,
    workspace_id: EventId,
    published: Seq<u8>,
    local: Seq<u8>,
    key: RetiredRecipientKey,
) -> bool {
    &&& k.recipients[published].recipient_key_id == key.recipient_key_id
    &&& k.locals.contains_key(local)
    &&& has_prefix(local, workspace_id@)
    &&& k.locals[local].recipient_key == k.recipients[published].recipient_key
    &&& k.locals[local].local_recipient_key_id == key.local_recipient_key_id
}

/// A key to retire names a key that is in use, and its private half.
pub open spec fn names_key_in_use(
    k: KeyState,
    workspace_id: EventId,
    endpoint_shared_id: EventId,
    key: RetiredRecipientKey,
) -> bool {
    exists|p: Seq<u8>, l: Seq<u8>| #[trigger]
        key_is_in_use(k, workspace_id, endpoint_shared_id, p) && #[trigger] names_key_pair(
            k,
            workspace_id,
            p,
            l,
            key,
        )
}

/// A rotation retires every key of this device that is in use, with its private half, and no
/// others.
pub proof fn law_rotation_retires_every_key_in_use(
    k: KeyState,
    workspace_id: EventId,
    endpoint_shared_id: EventId,
)
    requires
        k.recipients.dom().finite(),
        k.locals.dom().finite(),
    ensures
        forall|p: Seq<u8>| #[trigger]
            key_is_in_use(k, workspace_id, endpoint_shared_id, p) ==> exists|i: int|
                0 <= i < active_keys(k, workspace_id, endpoint_shared_id).len() && (
                #[trigger] active_keys(k, workspace_id, endpoint_shared_id)[i]).recipient_key_id
                    == k.recipients[p].recipient_key_id,
        forall|i: int|
            0 <= i < active_keys(k, workspace_id, endpoint_shared_id).len()
                ==> names_key_in_use(
                k,
                workspace_id,
                endpoint_shared_id,
                #[trigger] active_keys(k, workspace_id, endpoint_shared_id)[i],
            ),
{
    let locals = values_under(k.locals, workspace_id@);
    let rows = values_under(k.recipients, workspace_id@);
    let keep = |row: RecipientKeyRow| is_active(k, workspace_id, endpoint_shared_id, row);
    let kept = rows.filter(keep);
    let active = active_keys(k, workspace_id, endpoint_shared_id);
    lemma_values_under(k.locals, workspace_id@);
    lemma_values_under(k.recipients, workspace_id@);
    assert forall|p: Seq<u8>| #[trigger]
        key_is_in_use(k, workspace_id, endpoint_shared_id, p) implies exists|i: int|
        0 <= i < active.len() && (#[trigger] active[i]).recipient_key_id
            == k.recipients[p].recipient_key_id by {
        let row = k.recipients[p];
        lemma_local_key(locals, row.recipient_key);
        let l = choose|l: Seq<u8>| #[trigger]
            k.locals.contains_key(l) && has_prefix(l, workspace_id@) && k.locals[l].recipient_key
                == row.recipient_key;
        assert(locals.contains(k.locals[l]));
        let a = choose|a: int| 0 <= a < locals.len() && locals[a] == k.locals[l];
        assert(locals[a].recipient_key == row.recipient_key);
        assert(rows.contains(row));
        let j = choose|j: int| 0 <= j < rows.len() && rows[j] == row;
        rows.lemma_filter_contains(keep, j);
        let i = choose|i: int| 0 <= i < kept.len() && kept[i] == row;
        assert(active[i].recipient_key_id == row.recipient_key_id);
    }
    assert forall|i: int| 0 <= i < active.len() implies names_key_in_use(
        k,
        workspace_id,
        endpoint_shared_id,
        #[trigger] active[i],
    ) by {
        let row = kept[i];
        rows.lemma_filter_pred(keep, i);
        assert(kept.contains(row));
        rows.lemma_filter_contains_rev(keep, row);
        let p = choose|p: Seq<u8>| #[trigger]
            k.recipients.contains_key(p) && has_prefix(p, workspace_id@) && k.recipients[p] == row;
        lemma_local_key(locals, row.recipient_key);
        let found = local_key_for(locals, row.recipient_key)->Some_0;
        let l = choose|l: Seq<u8>| #[trigger]
            k.locals.contains_key(l) && has_prefix(l, workspace_id@) && k.locals[l] == found;
        assert(k.locals.contains_key(l) && has_prefix(l, workspace_id@)
            && k.locals[l].recipient_key == row.recipient_key);
        assert(key_is_in_use(k, workspace_id, endpoint_shared_id, p));
        assert(names_key_pair(k, workspace_id, p, l, active[i]));
    }
}

/// A wrap of a workspace was made for one of some retired keys.
pub open spec fn made_for_a_retired_key(
    workspace_id: EventId,
    retired: Seq<RetiredRecipientKey>,
    row: KeyWrapRow,
) -> bool {
    row.workspace_id == workspace_id && exists|i: int|
        0 <= i < retired.len() && (#[trigger] retired[i]).recipient_key_id == row.recipient_key_id
}

proof fn lemma_retired_wraps(
    k: KeyState,
    workspace_id: EventId,
    retired: Seq<RetiredRecipientKey>,
)
    requires
        valid_keys(k),
        k.wraps.dom().finite(),
    ensures
        forall|key: Seq<u8>| #[trigger]
            k.wraps.contains_key(key) && made_for_a_retired_key(workspace_id, retired, k.wraps[key])
                ==> retired_wraps(k, workspace_id, retired).contains(k.wraps[key]),
        forall|row: KeyWrapRow| #[trigger]
            retired_wraps(k, workspace_id, retired).contains(row) ==> made_for_a_retired_key(
                workspace_id,
                retired,
                row,
            ) && k.wraps.contains_key(key_of_wrap(row)) && k.wraps[key_of_wrap(row)] == row,
{
    let rows = values_under(k.wraps, workspace_id@);
    let keep = |wrap: KeyWrapRow| wrap_is_retired(retired, wrap);
    let kept = retired_wraps(k, workspace_id, retired);
    lemma_values_under(k.wraps, workspace_id@);
    assert forall|key: Seq<u8>| #[trigger]
        k.wraps.contains_key(key) && made_for_a_retired_key(
            workspace_id,
            retired,
            k.wraps[key],
        ) implies kept.contains(k.wraps[key]) by {
        let row = k.wraps[key];
        assert(key == key_of_wrap(row));
        assert(key.take(32) =~= row.workspace_id@);
        assert(has_prefix(key, workspace_id@));
        assert(rows.contains(row));
        let j = choose|j: int| 0 <= j < rows.len() && rows[j] == row;
        rows.lemma_filter_contains(keep, j);
    }
    assert forall|row: KeyWrapRow| #[trigger] kept.contains(row) implies {
        &&& made_for_a_retired_key(workspace_id, retired, row)
        &&& k.wraps.contains_key(key_of_wrap(row))
        &&& k.wraps[key_of_wrap(row)] == row
    } by {
        let j = choose|j: int| 0 <= j < kept.len() && kept[j] == row;
        rows.lemma_filter_pred(keep, j);
        rows.lemma_filter_contains_rev(keep, row);
        let key = choose|key: Seq<u8>| #[trigger]
            k.wraps.contains_key(key) && has_prefix(key, workspace_id@) && k.wraps[key] == row;
        assert(key == key_of_wrap(row));
        assert(key.take(32) =~= row.workspace_id@);
        lemma_id_ext(row.workspace_id, workspace_id);
    }
}

/// What goes with some retired keys, and what stays: exactly the wraps made for them go, stored
/// and queued, and exactly their private halves. Published keys and tombstones stay.
pub proof fn law_only_retired_key_material_goes(
    k: KeyState,
    s: StoreState,
    workspace_id: EventId,
    retired: Seq<RetiredRecipientKey>,
)
    requires
        valid_keys(k),
        k.wraps.dom().finite(),
    ensures
        ({
            let after = material_purged(k, s, workspace_id, retired).0;
            &&& after.recipients == k.recipients
            &&& after.tombstones == k.tombstones
            &&& forall|key: Seq<u8>| #[trigger]
                k.wraps.contains_key(key) ==> (after.wraps.contains_key(key)
                    <==> !made_for_a_retired_key(workspace_id, retired, k.wraps[key]))
            &&& forall|key: Seq<u8>| #[trigger]
                after.wraps.contains_key(key) ==> k.wraps.contains_key(key) && after.wraps[key]
                    == k.wraps[key]
            &&& forall|key: Seq<u8>| #[trigger]
                k.pending.contains_key(key) ==> (after.pending.contains_key(key) <==> !(
                k.wraps.contains_key(key) && made_for_a_retired_key(
                    workspace_id,
                    retired,
                    k.wraps[key],
                )))
            &&& forall|key: Seq<u8>| #[trigger]
                after.pending.contains_key(key) ==> k.pending.contains_key(key)
                    && after.pending[key] == k.pending[key]
            &&& forall|l: Seq<u8>| #[trigger]
                after.locals.contains_key(l) <==> k.locals.contains_key(l) && !exists|i: int|
                    0 <= i < retired.len() && l == workspace_id@ + (
                    #[trigger] retired[i]).local_recipient_key_id@
            &&& forall|l: Seq<u8>| #[trigger]
                after.locals.contains_key(l) ==> after.locals[l] == k.locals[l]
        }),
{
    let wraps = retired_wraps(k, workspace_id, retired);
    let gone = wrap_keys(wraps);
    lemma_retired_wraps(k, workspace_id, retired);
    assert forall|key: Seq<u8>| #[trigger] gone.contains(key) <==> k.wraps.contains_key(key)
        && made_for_a_retired_key(workspace_id, retired, k.wraps[key]) by {
        if gone.contains(key) {
            let i = choose|i: int| 0 <= i < wraps.len() && key == key_of_wrap(#[trigger] wraps[i]);
            assert(wraps.contains(wraps[i]));
        }
        if k.wraps.contains_key(key) && made_for_a_retired_key(
            workspace_id,
            retired,
            k.wraps[key],
        ) {
            assert(wraps.contains(k.wraps[key]));
            let i = choose|i: int| 0 <= i < wraps.len() && wraps[i] == k.wraps[key];
            assert(key == key_of_wrap(wraps[i]));
        }
    }
}

proof fn lemma_wraps_are_purged(s: StoreState, wraps: Seq<KeyWrapRow>, n: int)
    requires
        0 <= n <= wraps.len(),
    ensures
        forall|i: int|
            0 <= i < n ==> !wraps_purged(s, wraps, n).events.events.contains_key(
                (#[trigger] wraps[i]).key_wrap_id@,
            ),
        forall|id: Seq<u8>| #[trigger]
            s.events.events.contains_key(id) && !(exists|i: int|
                0 <= i < n && (#[trigger] wraps[i]).key_wrap_id@ == id) ==> wraps_purged(
                s,
                wraps,
                n,
            ).events.events.contains_key(id) && wraps_purged(s, wraps, n).events.events[id]
                == s.events.events[id],
    decreases n,
{
    if n > 0 {
        lemma_wraps_are_purged(s, wraps, n - 1);
        let before = wraps_purged(s, wraps, n - 1);
        law_purge_keeps_labels_and_other_events(before, wraps[n - 1].key_wrap_id@);
        assert forall|i: int| 0 <= i < n implies !wraps_purged(
            s,
            wraps,
            n,
        ).events.events.contains_key((#[trigger] wraps[i]).key_wrap_id@) by {
            if i < n - 1 {
                lemma_wraps_purged_only_removes(before, wraps, 0, wraps[i].key_wrap_id@);
            }
        }
        assert forall|id: Seq<u8>| #[trigger]
            s.events.events.contains_key(id) && !(exists|i: int|
                0 <= i < n && (#[trigger] wraps[i]).key_wrap_id@ == id) implies {
            &&& wraps_purged(s, wraps, n).events.events.contains_key(id)
            &&& wraps_purged(s, wraps, n).events.events[id] == s.events.events[id]
        } by {
            assert(wraps[n - 1].key_wrap_id@ != id);
            assert(before.events.events.contains_key(id));
        }
    }
}

proof fn lemma_other_events_stay(
    s: StoreState,
    retired: Seq<RetiredRecipientKey>,
    n: int,
    id: Seq<u8>,
)
    requires
        0 <= n <= retired.len(),
        s.events.events.contains_key(id),
        forall|i: int|
            0 <= i < n ==> (#[trigger] retired[i]).recipient_key_id@ != id
                && retired[i].local_recipient_key_id@ != id,
    ensures
        keys_purged(s, retired, n).events.events.contains_key(id),
        keys_purged(s, retired, n).events.events[id] == s.events.events[id],
    decreases n,
{
    if n > 0 {
        lemma_other_events_stay(s, retired, n - 1, id);
        let before = keys_purged(s, retired, n - 1);
        let key = retired[n - 1];
        law_purge_keeps_labels_and_other_events(before, key.recipient_key_id@);
        law_purge_keeps_labels_and_other_events(
            purged_store(before, key.recipient_key_id@),
            key.local_recipient_key_id@,
        );
    }
}

/// The bytes of every wrap that was made for a retired key are dropped with it. The bytes of
/// events that are none of these wraps and none of the retired keys stay.
pub proof fn law_retired_wraps_lose_their_bytes(
    k: KeyState,
    s: StoreState,
    workspace_id: EventId,
    retired: Seq<RetiredRecipientKey>,
)
    requires
        valid_keys(k),
        k.wraps.dom().finite(),
    ensures
        ({
            let after = material_purged(k, s, workspace_id, retired).1;
            &&& forall|key: Seq<u8>| #[trigger]
                k.wraps.contains_key(key) && made_for_a_retired_key(
                    workspace_id,
                    retired,
                    k.wraps[key],
                ) ==> !after.events.events.contains_key(k.wraps[key].key_wrap_id@)
            &&& forall|id: Seq<u8>| #[trigger]
                s.events.events.contains_key(id) && (forall|i: int|
                    0 <= i < retired.len() ==> (#[trigger] retired[i]).recipient_key_id@ != id
                        && retired[i].local_recipient_key_id@ != id) && (forall|key: Seq<u8>|
                 #[trigger]
                    k.wraps.contains_key(key) && made_for_a_retired_key(
                        workspace_id,
                        retired,
                        k.wraps[key],
                    ) ==> k.wraps[key].key_wrap_id@ != id) ==> after.events.events.contains_key(id)
                    && after.events.events[id] == s.events.events[id]
        }),
{
    let wraps = retired_wraps(k, workspace_id, retired);
    let mid = keys_purged(s, retired, retired.len() as int);
    let after = material_purged(k, s, workspace_id, retired).1;
    lemma_retired_wraps(k, workspace_id, retired);
    lemma_wraps_are_purged(mid, wraps, wraps.len() as int);
    assert forall|key: Seq<u8>| #[trigger]
        k.wraps.contains_key(key) && made_for_a_retired_key(
            workspace_id,
            retired,
            k.wraps[key],
        ) implies !after.events.events.contains_key(k.wraps[key].key_wrap_id@) by {
        let i = choose|i: int| 0 <= i < wraps.len() && wraps[i] == k.wraps[key];
        assert(wraps[i].key_wrap_id == k.wraps[key].key_wrap_id);
    }
    assert forall|id: Seq<u8>| #[trigger]
        s.events.events.contains_key(id) && (forall|i: int|
            0 <= i < retired.len() ==> (#[trigger] retired[i]).recipient_key_id@ != id
                && retired[i].local_recipient_key_id@ != id) && (forall|key: Seq<u8>| #[trigger]
            k.wraps.contains_key(key) && made_for_a_retired_key(workspace_id, retired, k.wraps[key])
                ==> k.wraps[key].key_wrap_id@ != id) implies after.events.events.contains_key(id)
        && after.events.events[id] == s.events.events[id] by {
        lemma_other_events_stay(s, retired, retired.len() as int, id);
        assert forall|i: int| 0 <= i < wraps.len() implies (#[trigger] wraps[i]).key_wrap_id@
            != id by {
            assert(wraps.contains(wraps[i]));
            assert(k.wraps.contains_key(key_of_wrap(wraps[i])));
        }
        assert(mid.events.events.contains_key(id));
    }
}

proof fn lemma_rotated(
    k: KeyState,
    s: StoreState,
    r: RotationEvents,
    workspace_id: EventId,
    retired: Seq<RetiredRecipientKey>,
    n: int,
)
    requires
        0 <= n <= retired.len() + 2,
    ensures
        ({
            let after = rotated_keys(k, s, r, workspace_id, retired, n);
            &&& after.wraps == k.wraps
            &&& after.pending == k.pending
            &&& n >= 1 && record_applied(s, rotation_records(r)[0]) ==> after.locals.contains_key(
                key_of_local(r.local_recipient),
            )
            &&& n >= 2 && record_applied(s, rotation_records(r)[1])
                ==> after.recipients.contains_key(key_of_recipient(r.recipient))
            &&& forall|x: Seq<u8>| #[trigger]
                k.locals.contains_key(x) ==> after.locals.contains_key(x) && after.locals[x]
                    == k.locals[x]
            &&& forall|x: Seq<u8>| #[trigger]
                after.locals.contains_key(x) ==> k.locals.contains_key(x) || x == key_of_local(
                    r.local_recipient,
                ) && after.locals[x] == r.local_recipient
            &&& forall|x: Seq<u8>| #[trigger]
                k.recipients.contains_key(x) ==> after.recipients.contains_key(x)
                    && after.recipients[x] == k.recipients[x]
            &&& forall|x: Seq<u8>| #[trigger]
                after.recipients.contains_key(x) ==> k.recipients.contains_key(x) || x
                    == key_of_recipient(r.recipient) && after.recipients[x] == r.recipient
            &&& forall|i: int|
                0 <= i < n - 2 && record_applied(s, rotation_records(r)[i + 2])
                    ==> after.tombstones.contains_key(
                    workspace_id@ + (#[trigger] retired[i]).recipient_key_id@,
                )
            &&& forall|x: Seq<u8>| #[trigger]
                k.tombstones.contains_key(x) ==> after.tombstones.contains_key(x)
            &&& forall|x: Seq<u8>| #[trigger]
                after.tombstones.contains_key(x) ==> k.tombstones.contains_key(x) || exists|i: int|
                    0 <= i < n - 2 && record_applied(s, rotation_records(r)[i + 2]) && x
                        == workspace_id@ + (#[trigger] retired[i]).recipient_key_id@
        }),
    decreases n,
{
    if n > 0 {
        lemma_rotated(k, s, r, workspace_id, retired, n - 1);
        if n > 2 {
            let key = retired[n - 3];
            assert(rotation_records(r)[n - 1] == rotation_records(r)[(n - 3) + 2]);
        }
    }
}

/// The key rows follow the events of a rotation: the new private key and the published key are
/// here as soon as their events are applied, a retired key has its tombstone exactly as soon as
/// the event of that tombstone is applied, and rows that were here stay.
pub proof fn law_key_rows_follow_the_rotation(
    k: KeyState,
    s: StoreState,
    r: RotationEvents,
    workspace_id: EventId,
    retired: Seq<RetiredRecipientKey>,
)
    requires
        r.tombstone_records@.len() == retired.len(),
    ensures
        ({
            let after = rotated_keys(
                k,
                s,
                r,
                workspace_id,
                retired,
                rotation_records(r).len() as int,
            );
            &&& s.events.applied(event_id_of(r.local_record@.canonical_bytes)@)
                ==> after.locals.contains_key(
                r.local_recipient.workspace_id@ + r.local_recipient.local_recipient_key_id@,
            )
            &&& s.events.applied(event_id_of(r.recipient_record@.canonical_bytes)@)
                ==> after.recipients.contains_key(
                r.recipient.workspace_id@ + r.recipient.recipient_key_id@,
            )
            &&& forall|i: int|
                0 <= i < retired.len() && s.events.applied(
                    event_id_of((#[trigger] r.tombstone_records@[i])@.canonical_bytes)@,
                ) ==> after.tombstones.contains_key(workspace_id@ + retired[i].recipient_key_id@)
            &&& forall|x: Seq<u8>| #[trigger]
                after.tombstones.contains_key(x) ==> k.tombstones.contains_key(x) || exists|i: int|
                    0 <= i < retired.len() && s.events.applied(
                        event_id_of((#[trigger] r.tombstone_records@[i])@.canonical_bytes)@,
                    ) && x == workspace_id@ + retired[i].recipient_key_id@
            &&& after.wraps == k.wraps
            &&& after.pending == k.pending
            &&& forall|x: Seq<u8>| #[trigger]
                k.locals.contains_key(x) ==> after.locals.contains_key(x) && after.locals[x]
                    == k.locals[x]
            &&& forall|x: Seq<u8>| #[trigger]
                k.recipients.contains_key(x) ==> after.recipients.contains_key(x)
                    && after.recipients[x] == k.recipients[x]
            &&& forall|x: Seq<u8>| #[trigger]
                k.tombstones.contains_key(x) ==> after.tombstones.contains_key(x)
        }),
{
    let n = rotation_records(r).len() as int;
    lemma_rotated(k, s, r, workspace_id, retired, n);
    let after = rotated_keys(k, s, r, workspace_id, retired, n);
    assert forall|i: int| 0 <= i < retired.len() implies rotation_records(r)[i + 2] == (
    #[trigger] r.tombstone_records@[i])@ by {}
    assert forall|i: int|
        0 <= i < retired.len() && s.events.applied(
            event_id_of((#[trigger] r.tombstone_records@[i])@.canonical_bytes)@,
        ) implies after.tombstones.contains_key(workspace_id@ + retired[i].recipient_key_id@) by {
        assert(record_applied(s, rotation_records(r)[i + 2]));
        let key = retired[i];
    }
    assert forall|x: Seq<u8>| #[trigger] after.tombstones.contains_key(x) implies {
        k.tombstones.contains_key(x) || exists|i: int|
            0 <= i < retired.len() && s.events.applied(
                event_id_of((#[trigger] r.tombstone_records@[i])@.canonical_bytes)@,
            ) && x == workspace_id@ + retired[i].recipient_key_id@
    } by {
        if !k.tombstones.contains_key(x) {
            let i = choose|i: int|
                0 <= i < n - 2 && record_applied(s, rotation_records(r)[i + 2]) && x
                    == workspace_id@ + (#[trigger] retired[i]).recipient_key_id@;
            assert(s.events.applied(event_id_of(r.tombstone_records@[i]@.canonical_bytes)@));
        }
    }
}

/// Who may rotate: a device that joined the workspace, under the key that its membership names
/// and in a role that receives key wraps. Nobody else may.
pub proof fn law_who_may_rotate(m: Rows, workspace_id: EventId)
    ensures
        rotation_membership(m, workspace_id) matches Ok(membership) ==> {
            &&& local_endpoint_of(m) is Ok
            &&& membership_of(m, local_endpoint_of(m)->Ok_0.endpoint, workspace_id) == Ok::<
                Option<EndpointMembershipRow>,
                Seq<char>,
            >(Some(membership))
            &&& membership.signing_public_key == local_endpoint_of(m)->Ok_0.signing_public_key
            &&& membership.endpoint_role is Device
        },
        local_endpoint_of(m) matches Ok(local) && (membership_of(
            m,
            local.endpoint,
            workspace_id,
        ) matches Ok(Some(membership)) && membership.signing_public_key == local.signing_public_key
            && membership.endpoint_role is Device) ==> rotation_membership(m, workspace_id) is Ok,
{
}

} // verus!
