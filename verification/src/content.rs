//! Content rows: messages and reactions, sealed or open, files, and the tombstones of deleted
//! messages.
use vstd::prelude::*;
use crate::bytes::{be64, copy_bytes, has_prefix, id_pair, lemma_id_ext, put_be64, EventId};
use crate::event_store::Mark;
use crate::table::{is_listing, key_views, listing, with_prefix, Duplicate, Table};
use crate::wire::put_id;

verus! {

/// The key of a row that belongs to a message of a workspace.
pub open spec fn message_key_bytes(workspace_id: EventId, message_id: EventId) -> Seq<u8> {
    workspace_id@ + message_id@
}

/// The key of a row that belongs to a message of a workspace.
pub fn message_key(workspace_id: &EventId, message_id: &EventId) -> (r: Vec<u8>)
    ensures
        r@ == message_key_bytes(*workspace_id, *message_id),
{
    id_pair(workspace_id, message_id)
}

/// The record that a deleted message leaves behind.
#[derive(Debug, Clone, Copy, PartialEq, Eq)]
pub struct MessageTombstoneRow {
    pub workspace_id: EventId,
    pub message_id: EventId,
    pub author_user_id: EventId,
    pub authored_minute: u64,
}

impl View for MessageTombstoneRow {
    type V = MessageTombstoneRow;

    open spec fn view(&self) -> MessageTombstoneRow {
        *self
    }
}

/// Every message tombstone is kept under its own key.
pub open spec fn valid_message_tombstones(m: Map<Seq<u8>, MessageTombstoneRow>) -> bool {
    forall|k: Seq<u8>| #[trigger]
        m.contains_key(k) ==> k == message_key_bytes(m[k].workspace_id, m[k].message_id)
}

/// The message tombstones of a workspace, in the order of their keys.
pub open spec fn tombstones_of_workspace(
    m: Map<Seq<u8>, MessageTombstoneRow>,
    workspace_id: EventId,
) -> Seq<MessageTombstoneRow> {
    listing(with_prefix(m.dom(), workspace_id@)).map_values(|k: Seq<u8>| m[k])
}

/// The message tombstones of a workspace, in the order of their keys.
pub fn list_message_tombstones_for_workspace(
    table: &Table<MessageTombstoneRow>,
    workspace_id: &EventId,
) -> (r: Vec<MessageTombstoneRow>)
    requires
        table.wf(),
        valid_message_tombstones(table@),
    ensures
        r@ == tombstones_of_workspace(table@, *workspace_id),
        forall|row: MessageTombstoneRow| #[trigger]
            r@.contains(row) <==> row.workspace_id == *workspace_id && table@.contains_key(
                message_key_bytes(row.workspace_id, row.message_id),
            ) && table@[message_key_bytes(row.workspace_id, row.message_id)] == row,
        forall|i: int, j: int|
            0 <= i < j < r@.len() ==> message_key_bytes(
                (#[trigger] r@[i]).workspace_id,
                r@[i].message_id,
            ) != message_key_bytes((#[trigger] r@[j]).workspace_id, r@[j].message_id),
{
    let limit: usize = usize::MAX;
    let keys = table.keys_with_prefix(workspace_id.as_slice(), limit);
    let ghost dom = with_prefix(table@.dom(), workspace_id@);
    let ghost all = listing(dom);
    let mut out: Vec<MessageTombstoneRow> = Vec::new();
    let mut i: usize = 0;
    assert(all == key_views(keys@));
    while i < keys.len()
        invariant
            table.wf(),
            i <= keys@.len(),
            dom == with_prefix(table@.dom(), workspace_id@),
            all == listing(dom),
            is_listing(all, dom),
            all == key_views(keys@),
            out@ == all.take(i as int).map_values(|k: Seq<u8>| table@[k]),
        decreases keys.len() - i,
    {
        proof {
            assert(all[i as int] == keys@[i as int]@);
            assert(all.contains(all[i as int]));
            assert(dom.contains(all[i as int]));
        }
        let row = *table.get(keys[i].as_slice()).unwrap();
        out.push(row);
        proof {
            assert(all.take(i + 1) =~= all.take(i as int).push(all[i as int]));
            assert(out@ =~= all.take(i + 1).map_values(|k: Seq<u8>| table@[k]));
        }
        i = i + 1;
    }
    proof {
        assert(all.take(i as int) =~= all);
        assert forall|k: Seq<u8>| #[trigger] table@.contains_key(k) implies has_prefix(
            k,
            workspace_id@,
        ) == (table@[k].workspace_id == *workspace_id) by {
            let row = table@[k];
            assert(k.take(32) =~= row.workspace_id@);
            lemma_id_ext(row.workspace_id, *workspace_id);
        }
        assert forall|row: MessageTombstoneRow| #[trigger]
            out@.contains(row) <==> row.workspace_id == *workspace_id && table@.contains_key(
                message_key_bytes(row.workspace_id, row.message_id),
            ) && table@[message_key_bytes(row.workspace_id, row.message_id)] == row by {
            if out@.contains(row) {
                let j = choose|j: int| 0 <= j < out@.len() && out@[j] == row;
                assert(all.contains(all[j]));
                assert(dom.contains(all[j]));
            }
            let k = message_key_bytes(row.workspace_id, row.message_id);
            if row.workspace_id == *workspace_id && table@.contains_key(k) && table@[k] == row {
                assert(dom.contains(k));
                assert(all.contains(k));
                let j = choose|j: int| 0 <= j < all.len() && all[j] == k;
                assert(out@[j] == row);
            }
        }
        crate::table::lemma_ascending_distinct(all);
        assert forall|i: int, j: int| 0 <= i < j < out@.len() implies message_key_bytes(
            (#[trigger] out@[i]).workspace_id,
            out@[i].message_id,
        ) != message_key_bytes((#[trigger] out@[j]).workspace_id, out@[j].message_id) by {
            assert(all.contains(all[i]) && all.contains(all[j]));
            assert(dom.contains(all[i]) && dom.contains(all[j]));
            assert(all[i] != all[j]);
        }
    }
    out
}

impl Duplicate for MessageTombstoneRow {
    fn duplicate(&self) -> (r: MessageTombstoneRow) {
        *self
    }
}

// ---------------------------------------------------------------------------
// Messages and reactions
// ---------------------------------------------------------------------------

/// What is known of a message without opening it.
#[derive(Debug, Clone, Copy, PartialEq, Eq)]
pub struct MessageHead {
    pub workspace_id: EventId,
    pub message_id: EventId,
    pub signer_endpoint_shared_id: EventId,
    pub created_at_ms: u64,
    pub author_user_id: EventId,
    pub removal_frontier_id: EventId,
    pub local_key_secret_id: EventId,
}

/// An open message.
#[derive(Debug, PartialEq, Eq)]
pub struct MessageRow {
    pub head: MessageHead,
    pub text: Vec<u8>,
}

/// What an open message says.
pub struct MessageView {
    pub head: MessageHead,
    pub text: Seq<u8>,
}

impl View for MessageRow {
    type V = MessageView;

    open spec fn view(&self) -> MessageView {
        MessageView { head: self.head, text: self.text@ }
    }
}

impl Duplicate for MessageRow {
    fn duplicate(&self) -> (r: MessageRow) {
        MessageRow { head: self.head, text: copy_bytes(self.text.as_slice()) }
    }
}

/// A message that waits to be opened. One that does not expire has the last minute.
#[derive(Debug, PartialEq, Eq)]
pub struct SealedMessageRow {
    pub head: MessageHead,
    pub expires_at_minute: u64,
    pub nonce: [u8; 24],
    pub ciphertext: Vec<u8>,
}

/// What a sealed message says.
pub struct SealedMessageView {
    pub head: MessageHead,
    pub expires_at_minute: u64,
    pub nonce: [u8; 24],
    pub ciphertext: Seq<u8>,
}

impl View for SealedMessageRow {
    type V = SealedMessageView;

    open spec fn view(&self) -> SealedMessageView {
        SealedMessageView {
            head: self.head,
            expires_at_minute: self.expires_at_minute,
            nonce: self.nonce,
            ciphertext: self.ciphertext@,
        }
    }
}

impl Duplicate for SealedMessageRow {
    fn duplicate(&self) -> (r: SealedMessageRow) {
        SealedMessageRow {
            head: self.head,
            expires_at_minute: self.expires_at_minute,
            nonce: self.nonce,
            ciphertext: copy_bytes(self.ciphertext.as_slice()),
        }
    }
}

/// What is known of a reaction without opening it.
#[derive(Debug, Clone, Copy, PartialEq, Eq)]
pub struct ReactionHead {
    pub workspace_id: EventId,
    pub reaction_id: EventId,
    pub signer_endpoint_shared_id: EventId,
    pub created_at_ms: u64,
    pub target_message_id: EventId,
    pub author_user_id: EventId,
    pub removal_frontier_id: EventId,
    pub local_key_secret_id: EventId,
}

/// An open reaction.
#[derive(Debug, PartialEq, Eq)]
pub struct ReactionRow {
    pub head: ReactionHead,
    pub emoji: Vec<u8>,
}

/// What an open reaction says.
pub struct ReactionView {
    pub head: ReactionHead,
    pub emoji: Seq<u8>,
}

impl View for ReactionRow {
    type V = ReactionView;

    open spec fn view(&self) -> ReactionView {
        ReactionView { head: self.head, emoji: self.emoji@ }
    }
}

impl Duplicate for ReactionRow {
    fn duplicate(&self) -> (r: ReactionRow) {
        ReactionRow { head: self.head, emoji: copy_bytes(self.emoji.as_slice()) }
    }
}

/// A reaction that waits to be opened.
#[derive(Debug, PartialEq, Eq)]
pub struct SealedReactionRow {
    pub head: ReactionHead,
    pub nonce: [u8; 24],
    pub ciphertext: Vec<u8>,
}

/// What a sealed reaction says.
pub struct SealedReactionView {
    pub head: ReactionHead,
    pub nonce: [u8; 24],
    pub ciphertext: Seq<u8>,
}

impl View for SealedReactionRow {
    type V = SealedReactionView;

    open spec fn view(&self) -> SealedReactionView {
        SealedReactionView { head: self.head, nonce: self.nonce, ciphertext: self.ciphertext@ }
    }
}

impl Duplicate for SealedReactionRow {
    fn duplicate(&self) -> (r: SealedReactionRow) {
        SealedReactionRow {
            head: self.head,
            nonce: self.nonce,
            ciphertext: copy_bytes(self.ciphertext.as_slice()),
        }
    }
}

// ---------------------------------------------------------------------------
// Files
// ---------------------------------------------------------------------------

/// The key of a row that belongs to three ids.
pub open spec fn triple_key(a: EventId, b: EventId, c: EventId) -> Seq<u8> {
    a@ + b@ + c@
}

/// The key of a row that belongs to three ids.
pub fn make_triple_key(a: &EventId, b: &EventId, c: &EventId) -> (r: Vec<u8>)
    ensures
        r@ == triple_key(*a, *b, *c),
{
    let mut out = id_pair(a, b);
    put_id(&mut out, c);
    out
}

/// The key of a slice of a file.
pub open spec fn slice_key(workspace_id: EventId, file_id: EventId, slice_number: u64) -> Seq<u8> {
    workspace_id@ + file_id@ + be64(slice_number)
}

/// The key of a slice of a file.
pub fn make_slice_key(workspace_id: &EventId, file_id: &EventId, slice_number: u64) -> (r: Vec<u8>)
    ensures
        r@ == slice_key(*workspace_id, *file_id, slice_number),
{
    let mut out = id_pair(workspace_id, file_id);
    put_be64(&mut out, slice_number);
    out
}

// ---------------------------------------------------------------------------
// The store
// ---------------------------------------------------------------------------

/// The content rows.
#[verifier::ext_equal]
pub struct ContentState {
    pub messages: Map<Seq<u8>, MessageView>,
    pub sealed_messages: Map<Seq<u8>, SealedMessageView>,
    pub reactions: Map<Seq<u8>, ReactionView>,
    pub sealed_reactions: Map<Seq<u8>, SealedReactionView>,
    pub message_tombstones: Map<Seq<u8>, MessageTombstoneRow>,
    pub files: Map<Seq<u8>, ()>,
    pub files_by_message: Map<Seq<u8>, ()>,
    pub files_by_file_id: Map<Seq<u8>, ()>,
    pub file_slices: Map<Seq<u8>, ()>,
    pub purge_pending: Map<Seq<u8>, ()>,
}

/// The stored content rows.
pub struct ContentStore {
    pub messages: Table<MessageRow>,
    pub sealed_messages: Table<SealedMessageRow>,
    pub reactions: Table<ReactionRow>,
    pub sealed_reactions: Table<SealedReactionRow>,
    pub message_tombstones: Table<MessageTombstoneRow>,
    pub files: Table<Mark>,
    pub files_by_message: Table<Mark>,
    pub files_by_file_id: Table<Mark>,
    pub file_slices: Table<Mark>,
    pub purge_pending: Table<Mark>,
}

impl View for ContentStore {
    type V = ContentState;

    open spec fn view(&self) -> ContentState {
        ContentState {
            messages: self.messages@,
            sealed_messages: self.sealed_messages@,
            reactions: self.reactions@,
            sealed_reactions: self.sealed_reactions@,
            message_tombstones: self.message_tombstones@,
            files: self.files@,
            files_by_message: self.files_by_message@,
            files_by_file_id: self.files_by_file_id@,
            file_slices: self.file_slices@,
            purge_pending: self.purge_pending@,
        }
    }
}

impl ContentState {
    /// A message was deleted.
    pub open spec fn is_deleted(self, workspace_id: EventId, message_id: EventId) -> bool {
        self.message_tombstones.contains_key(message_key_bytes(workspace_id, message_id))
    }
}

impl ContentStore {
    pub open spec fn wf(&self) -> bool {
        &&& self.messages.wf()
        &&& self.sealed_messages.wf()
        &&& self.reactions.wf()
        &&& self.sealed_reactions.wf()
        &&& self.message_tombstones.wf()
        &&& self.files.wf()
        &&& self.files_by_message.wf()
        &&& self.files_by_file_id.wf()
        &&& self.file_slices.wf()
        &&& self.purge_pending.wf()
        &&& valid_message_tombstones(self.message_tombstones@)
    }

    /// A store without rows.
    pub fn new() -> (s: ContentStore)
        ensures
            s.wf(),
            s@ == (ContentState {
                messages: Map::empty(),
                sealed_messages: Map::empty(),
                reactions: Map::empty(),
                sealed_reactions: Map::empty(),
                message_tombstones: Map::empty(),
                files: Map::empty(),
                files_by_message: Map::empty(),
                files_by_file_id: Map::empty(),
                file_slices: Map::empty(),
                purge_pending: Map::empty(),
            }),
    {
        ContentStore {
            messages: Table::new(),
            sealed_messages: Table::new(),
            reactions: Table::new(),
            sealed_reactions: Table::new(),
            message_tombstones: Table::new(),
            files: Table::new(),
            files_by_message: Table::new(),
            files_by_file_id: Table::new(),
            file_slices: Table::new(),
            purge_pending: Table::new(),
        }
    }

    /// A copy of the store.
    pub fn duplicate(&self) -> (r: ContentStore)
        requires
            self.wf(),
        ensures
            r.wf(),
            r@ == self@,
    {
        ContentStore {
            messages: self.messages.duplicate(),
            sealed_messages: self.sealed_messages.duplicate(),
            reactions: self.reactions.duplicate(),
            sealed_reactions: self.sealed_reactions.duplicate(),
            message_tombstones: self.message_tombstones.duplicate(),
            files: self.files.duplicate(),
            files_by_message: self.files_by_message.duplicate(),
            files_by_file_id: self.files_by_file_id.duplicate(),
            file_slices: self.file_slices.duplicate(),
            purge_pending: self.purge_pending.duplicate(),
        }
    }

    /// Whether a message was deleted.
    pub fn message_tombstone_exists(&self, workspace_id: &EventId, message_id: &EventId) -> (r: bool)
        requires
            self.wf(),
        ensures
            r == self@.is_deleted(*workspace_id, *message_id),
    {
        self.message_tombstones.contains(message_key(workspace_id, message_id).as_slice())
    }

    /// Remember that a message was deleted; tells whether that is new.
    pub fn insert_message_tombstone(&mut self, row: MessageTombstoneRow) -> (added: bool)
        requires
            old(self).wf(),
        ensures
            final(self).wf(),
            added == !old(self)@.is_deleted(row.workspace_id, row.message_id),
            final(self)@ == (ContentState {
                message_tombstones: tombstone_written(old(self)@.message_tombstones, row),
                ..old(self)@
            }),
    {
        let key = message_key(&row.workspace_id, &row.message_id);
        let ghost k0 = key@;
        let added = self.message_tombstones.insert(key, row);
        proof {
            assert forall|k: Seq<u8>| #[trigger]
                self.message_tombstones@.contains_key(k) implies k == message_key_bytes(
                self.message_tombstones@[k].workspace_id,
                self.message_tombstones@[k].message_id,
            ) by {
                if k != k0 {
                    assert(old(self).message_tombstones@.contains_key(k));
                }
            }
        }
        added
    }
}

/// The tombstones with one more, unless the message has one.
pub open spec fn tombstone_written(
    m: Map<Seq<u8>, MessageTombstoneRow>,
    row: MessageTombstoneRow,
) -> Map<Seq<u8>, MessageTombstoneRow> {
    let key = message_key_bytes(row.workspace_id, row.message_id);
    if m.contains_key(key) {
        m
    } else {
        m.insert(key, row)
    }
}

} // verus!
