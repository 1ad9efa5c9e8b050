//! Key material: the keys that workspace secrets are wrapped for, the wraps, and the private
//! halves that this device holds.
use vstd::prelude::*;
use crate::bytes::{has_prefix, id_eq, id_pair, EventId};
use crate::event_store::Mark;
use crate::table::{is_listing, key_views, lemma_listing_exists, listing, with_prefix, Table};
use crate::wire::put_id;

verus! {

/// A workspace secret, wrapped for one recipient key.
#[derive(Debug, Clone, Copy, PartialEq, Eq)]
pub struct KeyWrapRow {
    pub key_wrap_id: EventId,
    pub signer_endpoint_shared_id: EventId,
    pub workspace_id: EventId,
    pub created_at_ms: u64,
    pub removal_frontier_id: EventId,
    pub local_key_secret_id: EventId,
    pub recipient_key_id: EventId,
    pub sender_wrap_public_key: EventId,
    pub nonce: [u8; 24],
    pub ciphertext: [u8; 48],
}

impl View for KeyWrapRow {
    type V = KeyWrapRow;

    open spec fn view(&self) -> KeyWrapRow {
        *self
    }
}

/// A wrap that waits to be opened.
#[derive(Debug, Clone, Copy, PartialEq, Eq)]
pub struct PendingUnwrap {
    pub key_wrap_id: EventId,
}

impl View for PendingUnwrap {
    type V = EventId;

    open spec fn view(&self) -> EventId {
        self.key_wrap_id
    }
}

/// A key that workspace secrets can be wrapped for.
#[derive(Debug, Clone, Copy, PartialEq, Eq)]
pub struct RecipientKeyRow {
    pub recipient_key_id: EventId,
    pub workspace_id: EventId,
    pub endpoint_shared_id: EventId,
    pub recipient_key: EventId,
}

impl View for RecipientKeyRow {
    type V = RecipientKeyRow;

    open spec fn view(&self) -> RecipientKeyRow {
        *self
    }
}

/// A recipient key of this device, with its private half.
#[derive(Debug, Clone, Copy, PartialEq, Eq)]
pub struct LocalRecipientKeyRow {
    pub local_recipient_key_id: EventId,
    pub workspace_id: EventId,
    pub recipient_key: EventId,
    pub recipient_secret: EventId,
}

impl View for LocalRecipientKeyRow {
    type V = LocalRecipientKeyRow;

    open spec fn view(&self) -> LocalRecipientKeyRow {
        *self
    }
}

/// The key of a wrap: workspace, frontier and recipient key.
pub open spec fn wrap_key(workspace_id: EventId, frontier_id: EventId, recipient_key_id: EventId) -> Seq<
    u8,
> {
    workspace_id@ + frontier_id@ + recipient_key_id@
}

/// The key of a wrap: workspace, frontier and recipient key.
pub fn key_wrap_key(workspace_id: &EventId, frontier_id: &EventId, recipient_key_id: &EventId) -> (r:
    Vec<u8>)
    ensures
        r@ == wrap_key(*workspace_id, *frontier_id, *recipient_key_id),
{
    let mut out = id_pair(workspace_id, frontier_id);
    put_id(&mut out, recipient_key_id);
    out
}

/// The key rows.
#[verifier::ext_equal]
pub struct KeyState {
    pub wraps: Map<Seq<u8>, KeyWrapRow>,
    pub pending: Map<Seq<u8>, EventId>,
    pub recipients: Map<Seq<u8>, RecipientKeyRow>,
    pub tombstones: Map<Seq<u8>, ()>,
    pub locals: Map<Seq<u8>, LocalRecipientKeyRow>,
}

/// The key of a wrap row.
pub open spec fn key_of_wrap(row: KeyWrapRow) -> Seq<u8> {
    wrap_key(row.workspace_id, row.removal_frontier_id, row.recipient_key_id)
}

/// The key of a recipient key row.
pub open spec fn key_of_recipient(row: RecipientKeyRow) -> Seq<u8> {
    row.workspace_id@ + row.recipient_key_id@
}

/// The key of a local recipient key row.
pub open spec fn key_of_local(row: LocalRecipientKeyRow) -> Seq<u8> {
    row.workspace_id@ + row.local_recipient_key_id@
}

/// Every row is kept under its own key.
pub open spec fn keyed_by<V>(m: Map<Seq<u8>, V>, key_of: spec_fn(V) -> Seq<u8>) -> bool {
    forall|key: Seq<u8>| #[trigger] m.contains_key(key) ==> key == key_of(m[key])
}

/// Every row is kept under its own key.
pub open spec fn valid_keys(k: KeyState) -> bool {
    &&& keyed_by(k.wraps, |row: KeyWrapRow| key_of_wrap(row))
    &&& keyed_by(k.recipients, |row: RecipientKeyRow| key_of_recipient(row))
    &&& keyed_by(k.locals, |row: LocalRecipientKeyRow| key_of_local(row))
}

/// A row under its own key leaves the rest as it is.
proof fn lemma_keyed_insert<V>(
    m: Map<Seq<u8>, V>,
    key_of: spec_fn(V) -> Seq<u8>,
    key: Seq<u8>,
    v: V,
)
    requires
        keyed_by(m, key_of),
        key == key_of(v),
    ensures
        keyed_by(m.insert(key, v), key_of),
{
    assert forall|k: Seq<u8>| #[trigger] m.insert(key, v).contains_key(k) implies k == key_of(
        m.insert(key, v)[k],
    ) by {
        if k != key {
            assert(m.contains_key(k));
        }
    }
}

/// What is left after rows are taken away is kept under its own keys.
pub proof fn lemma_keyed_remove<V>(
    m: Map<Seq<u8>, V>,
    key_of: spec_fn(V) -> Seq<u8>,
    key: Seq<u8>,
)
    requires
        keyed_by(m, key_of),
    ensures
        keyed_by(m.remove(key), key_of),
{
    assert forall|k: Seq<u8>| #[trigger] m.remove(key).contains_key(k) implies k == key_of(
        m.remove(key)[k],
    ) by {
        assert(m.contains_key(k));
    }
}

/// The stored key rows.
pub struct KeyStore {
    pub wraps: Table<KeyWrapRow>,
    pub pending: Table<PendingUnwrap>,
    pub recipients: Table<RecipientKeyRow>,
    pub tombstones: Table<Mark>,
    pub locals: Table<LocalRecipientKeyRow>,
}

impl View for KeyStore {
    type V = KeyState;

    open spec fn view(&self) -> KeyState {
        KeyState {
            wraps: self.wraps@,
            pending: self.pending@,
            recipients: self.recipients@,
            tombstones: self.tombstones@,
            locals: self.locals@,
        }
    }
}

/// The values of a table whose keys begin with a prefix, in the order of the keys.
pub open spec fn values_under<V>(m: Map<Seq<u8>, V>, prefix: Seq<u8>) -> Seq<V> {
    listing(with_prefix(m.dom(), prefix)).map_values(|k: Seq<u8>| m[k])
}

/// A row that says everything in its fields.
pub trait PlainRow: View<V = Self> + Copy {
    proof fn lemma_plain(self)
        ensures
            self@ == self,
    ;
}

impl PlainRow for KeyWrapRow {
    proof fn lemma_plain(self) {
    }
}

impl PlainRow for RecipientKeyRow {
    proof fn lemma_plain(self) {
    }
}

impl PlainRow for LocalRecipientKeyRow {
    proof fn lemma_plain(self) {
    }
}

/// List the values of a table whose keys begin with a prefix, in the order of the keys.
pub fn list_under<V: PlainRow>(t: &Table<V>, prefix: &[u8]) -> (r: Vec<V>)
    requires
        t.wf(),
    ensures
        r@ == values_under(t@, prefix@),
        is_listing(
            listing(with_prefix(t@.dom(), prefix@)),
            with_prefix(t@.dom(), prefix@),
        ),
{
    let limit: usize = usize::MAX;
    let keys = t.keys_with_prefix(prefix, limit);
    let ghost dom = with_prefix(t@.dom(), prefix@);
    let ghost all = listing(dom);
    let mut out: Vec<V> = Vec::new();
    let mut i: usize = 0;
    assert(all == key_views(keys@));
    while i < keys.len()
        invariant
            t.wf(),
            i <= keys@.len(),
            dom == with_prefix(t@.dom(), prefix@),
            all == listing(dom),
            is_listing(all, dom),
            all == key_views(keys@),
            out@ == all.take(i as int).map_values(|k: Seq<u8>| t@[k]),
        decreases keys.len() - i,
    {
        proof {
            assert(all[i as int] == keys@[i as int]@);
            assert(all.contains(all[i as int]));
            assert(dom.contains(all[i as int]));
        }
        let row = *t.get(keys[i].as_slice()).unwrap();
        proof {
            row.lemma_plain();
        }
        out.push(row);
        proof {
            assert(all.take(i + 1) =~= all.take(i as int).push(all[i as int]));
            assert(out@ =~= all.take(i + 1).map_values(|k: Seq<u8>| t@[k]));
        }
        i = i + 1;
    }
    assert(all.take(i as int) =~= all);
    out
}

impl KeyStore {
    pub open spec fn wf(&self) -> bool {
        &&& self.wraps.wf()
        &&& self.pending.wf()
        &&& self.recipients.wf()
        &&& self.tombstones.wf()
        &&& self.locals.wf()
        &&& valid_keys(self@)
    }

    /// A store without rows.
    pub fn new() -> (s: KeyStore)
        ensures
            s.wf(),
            s@ == (KeyState {
                wraps: Map::empty(),
                pending: Map::empty(),
                recipients: Map::empty(),
                tombstones: Map::empty(),
                locals: Map::empty(),
            }),
    {
        KeyStore {
            wraps: Table::new(),
            pending: Table::new(),
            recipients: Table::new(),
            tombstones: Table::new(),
            locals: Table::new(),
        }
    }

    /// Keep a wrap, and queue it for opening.
    pub fn insert_key_wrap(&mut self, row: KeyWrapRow)
        requires
            old(self).wf(),
        ensures
            final(self).wf(),
            ({
                let key = wrap_key(row.workspace_id, row.removal_frontier_id, row.recipient_key_id);
                final(self)@ == (KeyState {
                    wraps: if old(self)@.wraps.contains_key(key) {
                        old(self)@.wraps
                    } else {
                        old(self)@.wraps.insert(key, row)
                    },
                    pending: if old(self)@.pending.contains_key(key) {
                        old(self)@.pending
                    } else {
                        old(self)@.pending.insert(key, row.key_wrap_id)
                    },
                    ..old(self)@
                })
            }),
    {
        let key = key_wrap_key(
            &row.workspace_id,
            &row.removal_frontier_id,
            &row.recipient_key_id,
        );
        let same = key_wrap_key(
            &row.workspace_id,
            &row.removal_frontier_id,
            &row.recipient_key_id,
        );
        proof {
            lemma_keyed_insert(
                self@.wraps,
                |row: KeyWrapRow| key_of_wrap(row),
                key@,
                row,
            );
        }
        let _ = self.wraps.insert(key, row);
        let _ = self.pending.insert(same, PendingUnwrap { key_wrap_id: row.key_wrap_id });
    }

    /// Keep a recipient key.
    pub fn insert_recipient_key(&mut self, row: RecipientKeyRow) -> (added: bool)
        requires
            old(self).wf(),
        ensures
            final(self).wf(),
            ({
                let key = row.workspace_id@ + row.recipient_key_id@;
                &&& added == !old(self)@.recipients.contains_key(key)
                &&& final(self)@ == (KeyState {
                    recipients: if added {
                        old(self)@.recipients.insert(key, row)
                    } else {
                        old(self)@.recipients
                    },
                    ..old(self)@
                })
            }),
    {
        proof {
            lemma_keyed_insert(
                self@.recipients,
                |row: RecipientKeyRow| key_of_recipient(row),
                key_of_recipient(row),
                row,
            );
        }
        self.recipients.insert(id_pair(&row.workspace_id, &row.recipient_key_id), row)
    }

    /// Keep a recipient key of this device.
    pub fn insert_local_recipient_key(&mut self, row: LocalRecipientKeyRow) -> (added: bool)
        requires
            old(self).wf(),
        ensures
            final(self).wf(),
            ({
                let key = row.workspace_id@ + row.local_recipient_key_id@;
                &&& added == !old(self)@.locals.contains_key(key)
                &&& final(self)@ == (KeyState {
                    locals: if added {
                        old(self)@.locals.insert(key, row)
                    } else {
                        old(self)@.locals
                    },
                    ..old(self)@
                })
            }),
    {
        proof {
            lemma_keyed_insert(
                self@.locals,
                |row: LocalRecipientKeyRow| key_of_local(row),
                key_of_local(row),
                row,
            );
        }
        self.locals.insert(id_pair(&row.workspace_id, &row.local_recipient_key_id), row)
    }

    /// Remember that a recipient key is retired.
    pub fn insert_tombstone(&mut self, workspace_id: &EventId, recipient_key_id: &EventId) -> (added:
        bool)
        requires
            old(self).wf(),
        ensures
            final(self).wf(),
            ({
                let key = workspace_id@ + recipient_key_id@;
                &&& added == !old(self)@.tombstones.contains_key(key)
                &&& final(self)@ == (KeyState {
                    tombstones: old(self)@.tombstones.insert(key, ()),
                    ..old(self)@
                })
            }),
    {
        let added = self.tombstones.insert(id_pair(workspace_id, recipient_key_id), Mark);
        assert(self@.tombstones =~= old(self)@.tombstones.insert(
            workspace_id@ + recipient_key_id@,
            (),
        ));
        added
    }
}

/// The first of some local keys with a public half.
pub open spec fn local_key_for(locals: Seq<LocalRecipientKeyRow>, recipient_key: EventId) -> Option<
    LocalRecipientKeyRow,
>
    decreases locals.len(),
{
    if locals.len() == 0 {
        None
    } else if locals[0].recipient_key == recipient_key {
        Some(locals[0])
    } else {
        local_key_for(locals.skip(1), recipient_key)
    }
}

/// Find the first of some local keys with a public half.
pub fn find_local_key(locals: &Vec<LocalRecipientKeyRow>, recipient_key: &EventId) -> (r: Option<
    LocalRecipientKeyRow,
>)
    ensures
        r == local_key_for(locals@, *recipient_key),
{
    let mut i: usize = 0;
    assert(locals@.skip(0) =~= locals@);
    while i < locals.len()
        invariant
            i <= locals@.len(),
            local_key_for(locals@, *recipient_key) == local_key_for(
                locals@.skip(i as int),
                *recipient_key,
            ),
        decreases locals.len() - i,
    {
        assert(locals@.skip(i as int)[0] == locals@[i as int]);
        if id_eq(&locals[i].recipient_key, recipient_key) {
            return Some(locals[i]);
        }
        assert(locals@.skip(i as int).skip(1) =~= locals@.skip(i + 1));
        i = i + 1;
    }
    None
}

/// The values under a prefix are those of the keys with that prefix.
pub proof fn lemma_values_under<V>(m: Map<Seq<u8>, V>, prefix: Seq<u8>)
    requires
        m.dom().finite(),
    ensures
        forall|k: Seq<u8>| #[trigger]
            m.contains_key(k) && has_prefix(k, prefix) ==> values_under(m, prefix).contains(m[k]),
        forall|v: V| #[trigger]
            values_under(m, prefix).contains(v) ==> exists|k: Seq<u8>| #[trigger]
                m.contains_key(k) && has_prefix(k, prefix) && m[k] == v,
{
    let some = with_prefix(m.dom(), prefix);
    lemma_listing_exists(some);
    let all = listing(some);
    let values = values_under(m, prefix);
    assert forall|k: Seq<u8>| #[trigger]
        m.contains_key(k) && has_prefix(k, prefix) implies values.contains(m[k]) by {
        assert(some.contains(k));
        let i = choose|i: int| 0 <= i < all.len() && all[i] == k;
        assert(values[i] == m[k]);
    }
    assert forall|v: V| #[trigger] values.contains(v) implies exists|k: Seq<u8>| #[trigger]
        m.contains_key(k) && has_prefix(k, prefix) && m[k] == v by {
        let i = choose|i: int| 0 <= i < values.len() && values[i] == v;
        assert(all.contains(all[i]));
        assert(some.contains(all[i]));
        assert(m.contains_key(all[i]) && has_prefix(all[i], prefix) && m[all[i]] == v);
    }
}

} // verus!
