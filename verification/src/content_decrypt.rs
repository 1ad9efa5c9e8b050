//! Opening sealed messages and reactions.
//!
//! A sealed row is opened once the key secret that it names is here. It goes away when it is
//! opened, and when its message was deleted. A row whose key is missing, or is another one,
//! waits. Where a row that should open does not, the whole run is undone.
use vstd::prelude::*;
use crate::aead::{xchacha20poly1305_decrypt, xchacha20poly1305_opened};
use crate::bytes::{
    be64, has_prefix, id_eq, id_pair, lemma_be64_injective, lemma_id_ext, put_be64, EventId,
};
use crate::content::{
    message_key, message_key_bytes, ContentState, ContentStore, MessageHead, MessageRow,
    MessageView, ReactionHead, ReactionRow, ReactionView, SealedMessageRow, SealedMessageView,
    SealedReactionRow, SealedReactionView,
};
use crate::content_events::{TYPE_SIGNED_MESSAGE, TYPE_SIGNED_REACTION};
use crate::event_store::Mark;
use crate::events::{module_error, module_error_text};
use crate::history::{Frontier, KeySecretRow};
use crate::history_store::{HistoryState, HistoryStore};
use crate::table::{
    at_most, countable, is_listing, key_views, lemma_prefix_listed, listing, with_prefix, Duplicate,
    Table,
};
use crate::text::{prefixed, text};
use crate::wire::{lemma_take_sized, put_id, put_u8, take_sized, trailing_text, Reader};

verus! {

/// What a run counted.
#[derive(Debug, Clone, Copy, PartialEq, Eq)]
pub struct DecryptReport {
    pub scanned_messages: usize,
    pub materialized_messages: usize,
    pub skipped_messages: usize,
    pub scanned_reactions: usize,
    pub materialized_reactions: usize,
    pub skipped_reactions: usize,
}

/// The text in the slot that a sealed row opens to, or what is wrong with it.
pub open spec fn slot_text(p: Seq<u8>) -> Result<Seq<u8>, Seq<char>> {
    match take_sized(p, "content slot"@) {
        Err(e) => Err(e),
        Ok((t, rest)) => if rest.len() > 0 {
            Err(trailing_text("content slot"@))
        } else {
            Ok(t)
        },
    }
}

/// Read the text in a slot.
fn decode_slot(p: &Vec<u8>) -> (r: Result<Vec<u8>, String>)
    ensures
        match slot_text(p@) {
            Ok(t) => r matches Ok(x) && x@ == t,
            Err(e) => r matches Err(x) && x@ == e,
        },
{
    let mut reader = Reader::new(p.as_slice(), "content slot");
    let t = match reader.sized_bytes() {
        Ok(t) => t,
        Err(e) => {
            return Err(e);
        },
    };
    match reader.finish() {
        Ok(_) => Ok(t),
        Err(e) => Err(e),
    }
}

/// The key secret under which content of a frontier is opened: its frontier is known here, and
/// it has a root.
pub open spec fn content_key(
    h: HistoryState,
    frontiers: Map<Seq<u8>, ()>,
    workspace_id: EventId,
    removal_frontier_id: EventId,
) -> Option<KeySecretRow> {
    let f = Frontier { workspace_id, removal_frontier_id };
    if frontiers.contains_key(workspace_id@ + removal_frontier_id@) && h.has_root(f) {
        Some(h.root(f))
    } else {
        None
    }
}

fn content_key_secret(
    history: &HistoryStore,
    frontiers: &Table<Mark>,
    workspace_id: &EventId,
    removal_frontier_id: &EventId,
) -> (r: Option<KeySecretRow>)
    requires
        history.wf(),
        frontiers.wf(),
    ensures
        r == content_key(history@, frontiers@, *workspace_id, *removal_frontier_id),
{
    if !frontiers.contains(id_pair(workspace_id, removal_frontier_id).as_slice()) {
        return None;
    }
    history.root(
        &Frontier { workspace_id: *workspace_id, removal_frontier_id: *removal_frontier_id },
    )
}

// ---------------------------------------------------------------------------
// Messages
// ---------------------------------------------------------------------------

/// What the seal on a message also vouches for.
pub open spec fn message_associated_data(h: MessageHead) -> Seq<u8> {
    seq![TYPE_SIGNED_MESSAGE] + h.workspace_id@ + h.author_user_id@ + h.removal_frontier_id@
        + h.local_key_secret_id@ + h.signer_endpoint_shared_id@ + be64(h.created_at_ms)
}

/// What the seal on a message also vouches for.
pub fn make_message_associated_data(h: &MessageHead) -> (out: Vec<u8>)
    ensures
        out@ == message_associated_data(*h),
{
    let mut out: Vec<u8> = Vec::new();
    put_u8(&mut out, TYPE_SIGNED_MESSAGE);
    put_id(&mut out, &h.workspace_id);
    put_id(&mut out, &h.author_user_id);
    put_id(&mut out, &h.removal_frontier_id);
    put_id(&mut out, &h.local_key_secret_id);
    put_id(&mut out, &h.signer_endpoint_shared_id);
    put_be64(&mut out, h.created_at_ms);
    assert(out@ =~= message_associated_data(*h));
    out
}

/// What the seal of a message hides, given what it opened to: the text, or what is wrong.
pub open spec fn message_text(opened: Option<Seq<u8>>) -> Result<Seq<u8>, Seq<char>> {
    match opened {
        None => Err("open sealed message"@),
        Some(p) => slot_text(p),
    }
}

/// Read the text of a message out of what its seal opened to.
pub fn text_of_message(opened: &Option<Vec<u8>>) -> (r: Result<Vec<u8>, String>)
    ensures
        match message_text(
            match *opened {
                Some(p) => Some(p@),
                None => None,
            },
        ) {
            Ok(t) => r matches Ok(x) && x@ == t,
            Err(e) => r matches Err(x) && x@ == e,
        },
{
    match opened {
        None => Err(text("open sealed message")),
        Some(p) => decode_slot(p),
    }
}

/// What a sealed message opens to under a key.
pub open spec fn message_opened(key: KeySecretRow, row: SealedMessageView) -> Option<Seq<u8>> {
    xchacha20poly1305_opened(
        key.key_secret@,
        message_associated_data(row.head),
        row.nonce@,
        row.ciphertext,
    )
}

/// The content rows after a sealed message is dealt with, and whether it was opened; or why it
/// cannot be.
pub open spec fn message_materialized(
    c: ContentState,
    h: HistoryState,
    frontiers: Map<Seq<u8>, ()>,
    row: SealedMessageView,
) -> Result<(ContentState, bool), Seq<char>> {
    let key = message_key_bytes(row.head.workspace_id, row.head.message_id);
    let gone = ContentState { sealed_messages: c.sealed_messages.remove(key), ..c };
    if c.is_deleted(row.head.workspace_id, row.head.message_id) || c.messages.contains_key(key) {
        Ok((gone, false))
    } else {
        match content_key(h, frontiers, row.head.workspace_id, row.head.removal_frontier_id) {
            None => Ok((c, false)),
            Some(secret) => if secret.local_key_secret_id != row.head.local_key_secret_id {
                Ok((c, false))
            } else {
                match message_text(message_opened(secret, row)) {
                    Err(e) => Err(e),
                    Ok(t) => Ok(
                        (
                            ContentState {
                                messages: c.messages.insert(
                                    key,
                                    MessageView { head: row.head, text: t },
                                ),
                                ..gone
                            },
                            true,
                        ),
                    ),
                }
            },
        }
    }
}

/// Deal with one sealed message.
fn materialize_message(
    content: &mut ContentStore,
    history: &HistoryStore,
    frontiers: &Table<Mark>,
    row: &SealedMessageRow,
) -> (r: Result<bool, String>)
    requires
        old(content).wf(),
        history.wf(),
        frontiers.wf(),
    ensures
        final(content).wf(),
        match message_materialized(old(content)@, history@, frontiers@, row@) {
            Ok((after, opened)) => r matches Ok(x) && x == opened && final(content)@ == after,
            Err(e) => r matches Err(x) && x@ == e,
        },
{
    let key = message_key(&row.head.workspace_id, &row.head.message_id);
    if content.message_tombstone_exists(&row.head.workspace_id, &row.head.message_id)
        || content.messages.contains(key.as_slice()) {
        let _ = content.sealed_messages.remove(key.as_slice());
        return Ok(false);
    }
    let secret = match content_key_secret(
        history,
        frontiers,
        &row.head.workspace_id,
        &row.head.removal_frontier_id,
    ) {
        Some(secret) => secret,
        None => {
            return Ok(false);
        },
    };
    if !id_eq(&secret.local_key_secret_id, &row.head.local_key_secret_id) {
        return Ok(false);
    }
    let opened = xchacha20poly1305_decrypt(
        &secret.key_secret,
        make_message_associated_data(&row.head).as_slice(),
        &row.nonce,
        row.ciphertext.as_slice(),
    );
    match text_of_message(&opened) {
        Ok(t) => {
            let _ = content.sealed_messages.remove(key.as_slice());
            let _ = content.messages.insert(key, MessageRow { head: row.head, text: t });
            Ok(true)
        },
        Err(e) => Err(e),
    }
}

// ---------------------------------------------------------------------------
// Reactions
// ---------------------------------------------------------------------------

/// What the seal on a reaction also vouches for.
pub open spec fn reaction_associated_data(h: ReactionHead) -> Seq<u8> {
    seq![TYPE_SIGNED_REACTION] + h.workspace_id@ + h.target_message_id@ + h.author_user_id@
        + h.removal_frontier_id@ + h.local_key_secret_id@ + h.signer_endpoint_shared_id@ + be64(
        h.created_at_ms,
    )
}

/// What the seal on a reaction also vouches for.
pub fn make_reaction_associated_data(h: &ReactionHead) -> (out: Vec<u8>)
    ensures
        out@ == reaction_associated_data(*h),
{
    let mut out: Vec<u8> = Vec::new();
    put_u8(&mut out, TYPE_SIGNED_REACTION);
    put_id(&mut out, &h.workspace_id);
    put_id(&mut out, &h.target_message_id);
    put_id(&mut out, &h.author_user_id);
    put_id(&mut out, &h.removal_frontier_id);
    put_id(&mut out, &h.local_key_secret_id);
    put_id(&mut out, &h.signer_endpoint_shared_id);
    put_be64(&mut out, h.created_at_ms);
    assert(out@ =~= reaction_associated_data(*h));
    out
}

/// What the seal of a reaction hides, given what it opened to: the emoji, or what is wrong.
pub open spec fn reaction_emoji(opened: Option<Seq<u8>>) -> Result<Seq<u8>, Seq<char>> {
    match opened {
        None => Err("open sealed reaction"@),
        Some(p) => slot_text(p),
    }
}

/// Read the emoji of a reaction out of what its seal opened to.
pub fn emoji_of_reaction(opened: &Option<Vec<u8>>) -> (r: Result<Vec<u8>, String>)
    ensures
        match reaction_emoji(
            match *opened {
                Some(p) => Some(p@),
                None => None,
            },
        ) {
            Ok(t) => r matches Ok(x) && x@ == t,
            Err(e) => r matches Err(x) && x@ == e,
        },
{
    match opened {
        None => Err(text("open sealed reaction")),
        Some(p) => decode_slot(p),
    }
}

/// What a sealed reaction opens to under a key.
pub open spec fn reaction_opened(key: KeySecretRow, row: SealedReactionView) -> Option<Seq<u8>> {
    xchacha20poly1305_opened(
        key.key_secret@,
        reaction_associated_data(row.head),
        row.nonce@,
        row.ciphertext,
    )
}

/// The content rows after a sealed reaction is dealt with, and whether it was opened; or why it
/// cannot be.
pub open spec fn reaction_materialized(
    c: ContentState,
    h: HistoryState,
    frontiers: Map<Seq<u8>, ()>,
    row: SealedReactionView,
) -> Result<(ContentState, bool), Seq<char>> {
    let key = message_key_bytes(row.head.workspace_id, row.head.reaction_id);
    let gone = ContentState { sealed_reactions: c.sealed_reactions.remove(key), ..c };
    if c.is_deleted(row.head.workspace_id, row.head.target_message_id) {
        Ok((gone, false))
    } else {
        match content_key(h, frontiers, row.head.workspace_id, row.head.removal_frontier_id) {
            None => Ok((c, false)),
            Some(secret) => if secret.local_key_secret_id != row.head.local_key_secret_id {
                Ok((c, false))
            } else {
                match reaction_emoji(reaction_opened(secret, row)) {
                    Err(e) => Err(e),
                    Ok(t) => Ok(
                        (
                            ContentState {
                                reactions: if c.reactions.contains_key(key) {
                                    c.reactions
                                } else {
                                    c.reactions.insert(
                                        key,
                                        ReactionView { head: row.head, emoji: t },
                                    )
                                },
                                ..gone
                            },
                            true,
                        ),
                    ),
                }
            },
        }
    }
}

/// Deal with one sealed reaction.
fn materialize_reaction(
    content: &mut ContentStore,
    history: &HistoryStore,
    frontiers: &Table<Mark>,
    row: &SealedReactionRow,
) -> (r: Result<bool, String>)
    requires
        old(content).wf(),
        history.wf(),
        frontiers.wf(),
    ensures
        final(content).wf(),
        match reaction_materialized(old(content)@, history@, frontiers@, row@) {
            Ok((after, opened)) => r matches Ok(x) && x == opened && final(content)@ == after,
            Err(e) => r matches Err(x) && x@ == e,
        },
{
    let key = message_key(&row.head.workspace_id, &row.head.reaction_id);
    if content.message_tombstone_exists(&row.head.workspace_id, &row.head.target_message_id) {
        let _ = content.sealed_reactions.remove(key.as_slice());
        return Ok(false);
    }
    let secret = match content_key_secret(
        history,
        frontiers,
        &row.head.workspace_id,
        &row.head.removal_frontier_id,
    ) {
        Some(secret) => secret,
        None => {
            return Ok(false);
        },
    };
    if !id_eq(&secret.local_key_secret_id, &row.head.local_key_secret_id) {
        return Ok(false);
    }
    let opened = xchacha20poly1305_decrypt(
        &secret.key_secret,
        make_reaction_associated_data(&row.head).as_slice(),
        &row.nonce,
        row.ciphertext.as_slice(),
    );
    match emoji_of_reaction(&opened) {
        Ok(t) => {
            let _ = content.sealed_reactions.remove(key.as_slice());
            let _ = content.reactions.insert(key, ReactionRow { head: row.head, emoji: t });
            Ok(true)
        },
        Err(e) => Err(e),
    }
}

// ---------------------------------------------------------------------------
// The drain
// ---------------------------------------------------------------------------

/// The keys of the first rows of a table, in their order.
pub open spec fn first_keys<V>(m: Map<Seq<u8>, V>, limit: usize) -> Seq<Seq<u8>> {
    at_most(listing(with_prefix(m.dom(), Seq::empty())), limit)
}

fn list_first<V: View>(t: &Table<V>, limit: usize) -> (r: Vec<Vec<u8>>)
    requires
        t.wf(),
    ensures
        key_views(r@) == first_keys(t@, limit),
        r@.len() <= limit,
        is_listing(
            listing(with_prefix(t@.dom(), Seq::empty())),
            with_prefix(t@.dom(), Seq::empty()),
        ),
{
    let empty: Vec<u8> = Vec::new();
    let r = t.keys_with_prefix(empty.as_slice(), limit);
    proof {
        assert(empty@ =~= Seq::<u8>::empty());
        assert(key_views(r@).len() == r@.len());
    }
    r
}

/// The rows under some keys that are still there when it is their turn are dealt with; `opened`
/// counts those that were opened, `skipped` the others.
pub open spec fn messages_drained(
    c: ContentState,
    h: HistoryState,
    frontiers: Map<Seq<u8>, ()>,
    rows: Seq<SealedMessageView>,
    n: int,
) -> Result<(ContentState, int, int), Seq<char>>
    decreases n,
{
    if n <= 0 {
        Ok((c, 0, 0))
    } else {
        match messages_drained(c, h, frontiers, rows, n - 1) {
            Err(e) => Err(e),
            Ok((d, opened, skipped)) => match message_materialized(d, h, frontiers, rows[n - 1]) {
                Err(e) => Err(e),
                Ok((after, true)) => Ok((after, opened + 1, skipped)),
                Ok((after, false)) => Ok((after, opened, skipped + 1)),
            },
        }
    }
}

/// The same for reactions.
pub open spec fn reactions_drained(
    c: ContentState,
    h: HistoryState,
    frontiers: Map<Seq<u8>, ()>,
    rows: Seq<SealedReactionView>,
    n: int,
) -> Result<(ContentState, int, int), Seq<char>>
    decreases n,
{
    if n <= 0 {
        Ok((c, 0, 0))
    } else {
        match reactions_drained(c, h, frontiers, rows, n - 1) {
            Err(e) => Err(e),
            Ok((d, opened, skipped)) => match reaction_materialized(d, h, frontiers, rows[n - 1]) {
                Err(e) => Err(e),
                Ok((after, true)) => Ok((after, opened + 1, skipped)),
                Ok((after, false)) => Ok((after, opened, skipped + 1)),
            },
        }
    }
}

proof fn lemma_messages_fail(
    c: ContentState,
    h: HistoryState,
    frontiers: Map<Seq<u8>, ()>,
    rows: Seq<SealedMessageView>,
    m: int,
    n: int,
)
    requires
        m <= n,
        messages_drained(c, h, frontiers, rows, m) is Err,
    ensures
        messages_drained(c, h, frontiers, rows, n) == messages_drained(c, h, frontiers, rows, m),
    decreases n - m,
{
    if m < n {
        lemma_messages_fail(c, h, frontiers, rows, m, n - 1);
    }
}

proof fn lemma_reactions_fail(
    c: ContentState,
    h: HistoryState,
    frontiers: Map<Seq<u8>, ()>,
    rows: Seq<SealedReactionView>,
    m: int,
    n: int,
)
    requires
        m <= n,
        reactions_drained(c, h, frontiers, rows, m) is Err,
    ensures
        reactions_drained(c, h, frontiers, rows, n) == reactions_drained(c, h, frontiers, rows, m),
    decreases n - m,
{
    if m < n {
        lemma_reactions_fail(c, h, frontiers, rows, m, n - 1);
    }
}

/// The first sealed messages, in the order of their keys.
pub open spec fn sealed_messages_listed(c: ContentState, limit: usize) -> Seq<SealedMessageView> {
    first_keys(c.sealed_messages, limit).map_values(|k: Seq<u8>| c.sealed_messages[k])
}

/// The first sealed reactions, in the order of their keys.
pub open spec fn sealed_reactions_listed(c: ContentState, limit: usize) -> Seq<SealedReactionView> {
    first_keys(c.sealed_reactions, limit).map_values(|k: Seq<u8>| c.sealed_reactions[k])
}

/// What a list of sealed messages says.
pub open spec fn sealed_message_views(rows: Seq<SealedMessageRow>) -> Seq<SealedMessageView> {
    rows.map_values(|r: SealedMessageRow| r@)
}

/// What a list of sealed reactions says.
pub open spec fn sealed_reaction_views(rows: Seq<SealedReactionRow>) -> Seq<SealedReactionView> {
    rows.map_values(|r: SealedReactionRow| r@)
}

/// List the first sealed messages, in the order of their keys.
pub fn list_sealed_messages(content: &ContentStore, limit: usize) -> (r: Vec<SealedMessageRow>)
    requires
        content.wf(),
    ensures
        sealed_message_views(r@) == sealed_messages_listed(content@, limit),
        r@.len() <= limit,
{
    let keys = list_first(&content.sealed_messages, limit);
    let ghost all = key_views(keys@);
    let ghost dom = with_prefix(content@.sealed_messages.dom(), Seq::empty());
    let mut out: Vec<SealedMessageRow> = Vec::new();
    let mut i: usize = 0;
    proof {
        assert(sealed_message_views(out@) =~= all.take(0).map_values(
            |k: Seq<u8>| content@.sealed_messages[k],
        ));
    }
    while i < keys.len()
        invariant
            content.wf(),
            i <= keys@.len(),
            keys@.len() <= limit,
            out@.len() == i,
            all == key_views(keys@),
            dom == with_prefix(content@.sealed_messages.dom(), Seq::empty()),
            all == at_most(listing(dom), limit),
            is_listing(listing(dom), dom),
            sealed_message_views(out@) == all.take(i as int).map_values(
                |k: Seq<u8>| content@.sealed_messages[k],
            ),
        decreases keys.len() - i,
    {
        proof {
            assert(all[i as int] == keys@[i as int]@);
            assert(listing(dom)[i as int] == all[i as int]);
            assert(listing(dom).contains(all[i as int]));
            assert(dom.contains(all[i as int]));
        }
        let row = content.sealed_messages.get(keys[i].as_slice()).unwrap().duplicate();
        let ghost before = out@;
        out.push(row);
        proof {
            assert(sealed_message_views(out@) =~= sealed_message_views(before).push(row@));
            assert(all.take(i + 1) =~= all.take(i as int).push(all[i as int]));
            assert(sealed_message_views(out@) =~= all.take(i + 1).map_values(
                |k: Seq<u8>| content@.sealed_messages[k],
            ));
        }
        i = i + 1;
    }
    assert(all.take(i as int) =~= all);
    out
}

/// List the first sealed reactions, in the order of their keys.
pub fn list_sealed_reactions(content: &ContentStore, limit: usize) -> (r: Vec<SealedReactionRow>)
    requires
        content.wf(),
    ensures
        sealed_reaction_views(r@) == sealed_reactions_listed(content@, limit),
        r@.len() <= limit,
{
    let keys = list_first(&content.sealed_reactions, limit);
    let ghost all = key_views(keys@);
    let ghost dom = with_prefix(content@.sealed_reactions.dom(), Seq::empty());
    let mut out: Vec<SealedReactionRow> = Vec::new();
    let mut i: usize = 0;
    proof {
        assert(sealed_reaction_views(out@) =~= all.take(0).map_values(
            |k: Seq<u8>| content@.sealed_reactions[k],
        ));
    }
    while i < keys.len()
        invariant
            content.wf(),
            i <= keys@.len(),
            keys@.len() <= limit,
            out@.len() == i,
            all == key_views(keys@),
            dom == with_prefix(content@.sealed_reactions.dom(), Seq::empty()),
            all == at_most(listing(dom), limit),
            is_listing(listing(dom), dom),
            sealed_reaction_views(out@) == all.take(i as int).map_values(
                |k: Seq<u8>| content@.sealed_reactions[k],
            ),
        decreases keys.len() - i,
    {
        proof {
            assert(all[i as int] == keys@[i as int]@);
            assert(listing(dom)[i as int] == all[i as int]);
            assert(listing(dom).contains(all[i as int]));
            assert(dom.contains(all[i as int]));
        }
        let row = content.sealed_reactions.get(keys[i].as_slice()).unwrap().duplicate();
        let ghost before = out@;
        out.push(row);
        proof {
            assert(sealed_reaction_views(out@) =~= sealed_reaction_views(before).push(row@));
            assert(all.take(i + 1) =~= all.take(i as int).push(all[i as int]));
            assert(sealed_reaction_views(out@) =~= all.take(i + 1).map_values(
                |k: Seq<u8>| content@.sealed_reactions[k],
            ));
        }
        i = i + 1;
    }
    assert(all.take(i as int) =~= all);
    out
}

/// The content rows after the first sealed messages and then the first sealed reactions are
/// dealt with, with the counts of both; or why one of them cannot be.
pub open spec fn decrypt_drained(
    c: ContentState,
    h: HistoryState,
    frontiers: Map<Seq<u8>, ()>,
    limit: usize,
) -> Result<(ContentState, (int, int), (int, int)), Seq<char>> {
    let messages = sealed_messages_listed(c, limit);
    match messages_drained(c, h, frontiers, messages, messages.len() as int) {
        Err(e) => Err(e),
        Ok((d, opened, skipped)) => {
            let reactions = sealed_reactions_listed(d, limit);
            match reactions_drained(d, h, frontiers, reactions, reactions.len() as int) {
                Err(e) => Err(e),
                Ok((after, opened_reactions, skipped_reactions)) => Ok(
                    (after, (opened, skipped), (opened_reactions, skipped_reactions)),
                ),
            }
        },
    }
}

/// A failure as a run reports it.
pub open spec fn decrypt_error(e: Seq<char>) -> Seq<char> {
    "drain content decrypt: "@ + module_error_text(e)
}

/// Open what can be opened: at most `limit` messages and at most `limit` reactions. A failure
/// undoes the whole run.
fn drain(
    content: &mut ContentStore,
    history: &HistoryStore,
    frontiers: &Table<Mark>,
    limit: usize,
) -> (r: Result<DecryptReport, String>)
    requires
        old(content).wf(),
        history.wf(),
        frontiers.wf(),
    ensures
        final(content).wf(),
        match decrypt_drained(old(content)@, history@, frontiers@, limit) {
            Ok((after, m, n)) => {
                &&& r matches Ok(x) && x.materialized_messages == m.0 && x.skipped_messages == m.1
                    && x.scanned_messages == m.0 + m.1 && x.materialized_reactions == n.0
                    && x.skipped_reactions == n.1 && x.scanned_reactions == n.0 + n.1
                &&& final(content)@ == after
            },
            Err(e) => r matches Err(x) && x@ == decrypt_error(e) && final(content)@
                == old(content)@,
        },
{
    let mut work = content.duplicate();
    let mut report = DecryptReport {
        scanned_messages: 0,
        materialized_messages: 0,
        skipped_messages: 0,
        scanned_reactions: 0,
        materialized_reactions: 0,
        skipped_reactions: 0,
    };
    let messages = list_sealed_messages(&work, limit);
    let ghost all = sealed_message_views(messages@);
    let mut i: usize = 0;
    while i < messages.len()
        invariant
            work.wf(),
            content.wf(),
            content@ == old(content)@,
            history.wf(),
            frontiers.wf(),
            i <= messages@.len(),
            messages@.len() <= limit,
            all == sealed_message_views(messages@),
            all == sealed_messages_listed(old(content)@, limit),
            messages_drained(old(content)@, history@, frontiers@, all, i as int) == Ok::<
                (ContentState, int, int),
                Seq<char>,
            >(
                (
                    work@,
                    report.materialized_messages as int,
                    report.skipped_messages as int,
                ),
            ),
            report.scanned_messages == i,
            report.materialized_messages + report.skipped_messages == i,
            report.scanned_reactions == 0,
            report.materialized_reactions == 0,
            report.skipped_reactions == 0,
        decreases messages.len() - i,
    {
        assert(all[i as int] == messages@[i as int]@);
        report.scanned_messages = report.scanned_messages + 1;
        match materialize_message(&mut work, history, frontiers, &messages[i]) {
            Ok(opened) => {
                if opened {
                    report.materialized_messages = report.materialized_messages + 1;
                } else {
                    report.skipped_messages = report.skipped_messages + 1;
                }
            },
            Err(e) => {
                proof {
                    lemma_messages_fail(
                        old(content)@,
                        history@,
                        frontiers@,
                        all,
                        i + 1,
                        all.len() as int,
                    );
                }
                return Err(prefixed("drain content decrypt: ", module_error(e)));
            },
        }
        i = i + 1;
    }
    let ghost mid = work@;
    let reactions = list_sealed_reactions(&work, limit);
    let ghost rest = sealed_reaction_views(reactions@);
    let mut j: usize = 0;
    while j < reactions.len()
        invariant
            work.wf(),
            content.wf(),
            content@ == old(content)@,
            history.wf(),
            frontiers.wf(),
            j <= reactions@.len(),
            reactions@.len() <= limit,
            all == sealed_messages_listed(old(content)@, limit),
            messages_drained(old(content)@, history@, frontiers@, all, all.len() as int) == Ok::<
                (ContentState, int, int),
                Seq<char>,
            >(
                (
                    mid,
                    report.materialized_messages as int,
                    report.skipped_messages as int,
                ),
            ),
            report.scanned_messages == report.materialized_messages + report.skipped_messages,
            rest == sealed_reaction_views(reactions@),
            rest == sealed_reactions_listed(mid, limit),
            reactions_drained(mid, history@, frontiers@, rest, j as int) == Ok::<
                (ContentState, int, int),
                Seq<char>,
            >(
                (
                    work@,
                    report.materialized_reactions as int,
                    report.skipped_reactions as int,
                ),
            ),
            report.scanned_reactions == j,
            report.materialized_reactions + report.skipped_reactions == j,
        decreases reactions.len() - j,
    {
        assert(rest[j as int] == reactions@[j as int]@);
        report.scanned_reactions = report.scanned_reactions + 1;
        match materialize_reaction(&mut work, history, frontiers, &reactions[j]) {
            Ok(opened) => {
                if opened {
                    report.materialized_reactions = report.materialized_reactions + 1;
                } else {
                    report.skipped_reactions = report.skipped_reactions + 1;
                }
            },
            Err(e) => {
                proof {
                    lemma_reactions_fail(
                        mid,
                        history@,
                        frontiers@,
                        rest,
                        j + 1,
                        rest.len() as int,
                    );
                }
                return Err(prefixed("drain content decrypt: ", module_error(e)));
            },
        }
        j = j + 1;
    }
    *content = work;
    Ok(report)
}

/// Work of the decrypt worker.
#[derive(Debug, Clone, Copy, PartialEq, Eq)]
pub enum Work {
    /// Open at most `limit` messages and at most `limit` reactions.
    Drain { limit: usize },
}

/// Run one unit of work.
pub fn run(
    content: &mut ContentStore,
    history: &HistoryStore,
    frontiers: &Table<Mark>,
    work: Work,
) -> (r: Result<DecryptReport, String>)
    requires
        old(content).wf(),
        history.wf(),
        frontiers.wf(),
    ensures
        final(content).wf(),
        work matches Work::Drain { limit } && match decrypt_drained(
            old(content)@,
            history@,
            frontiers@,
            limit,
        ) {
            Ok((after, m, n)) => {
                &&& r matches Ok(x) && x.materialized_messages == m.0 && x.skipped_messages == m.1
                    && x.scanned_messages == m.0 + m.1 && x.materialized_reactions == n.0
                    && x.skipped_reactions == n.1 && x.scanned_reactions == n.0 + n.1
                &&& final(content)@ == after
            },
            Err(e) => r matches Err(x) && x@ == decrypt_error(e) && final(content)@
                == old(content)@,
        },
{
    match work {
        Work::Drain { limit } => drain(content, history, frontiers, limit),
    }
}

/// A deleted message is never opened again: its sealed row goes away and no open row comes.
pub proof fn law_deleted_message_stays_hidden(
    c: ContentState,
    h: HistoryState,
    frontiers: Map<Seq<u8>, ()>,
    row: SealedMessageView,
)
    requires
        c.is_deleted(row.head.workspace_id, row.head.message_id),
    ensures
        message_materialized(c, h, frontiers, row) matches Ok((after, opened)) && !opened
            && after.messages == c.messages && !after.sealed_messages.contains_key(
            message_key_bytes(row.head.workspace_id, row.head.message_id),
        ),
{
}

/// A message whose key secret is not here waits: nothing changes.
pub proof fn law_message_without_its_key_waits(
    c: ContentState,
    h: HistoryState,
    frontiers: Map<Seq<u8>, ()>,
    row: SealedMessageView,
)
    requires
        !c.is_deleted(row.head.workspace_id, row.head.message_id),
        !c.messages.contains_key(message_key_bytes(row.head.workspace_id, row.head.message_id)),
        match content_key(h, frontiers, row.head.workspace_id, row.head.removal_frontier_id) {
            None => true,
            Some(secret) => secret.local_key_secret_id != row.head.local_key_secret_id,
        },
    ensures
        message_materialized(c, h, frontiers, row) == Ok::<(ContentState, bool), Seq<char>>(
            (c, false),
        ),
{
}

/// A reaction to a deleted message is never opened: its sealed row goes away and no open row
/// comes.
pub proof fn law_reaction_to_a_deleted_message_stays_hidden(
    c: ContentState,
    h: HistoryState,
    frontiers: Map<Seq<u8>, ()>,
    row: SealedReactionView,
)
    requires
        c.is_deleted(row.head.workspace_id, row.head.target_message_id),
    ensures
        reaction_materialized(c, h, frontiers, row) matches Ok((after, opened)) && !opened
            && after.reactions == c.reactions && !after.sealed_reactions.contains_key(
            message_key_bytes(row.head.workspace_id, row.head.reaction_id),
        ),
{
}

/// A reaction whose key secret is not here waits: nothing changes.
pub proof fn law_reaction_without_its_key_waits(
    c: ContentState,
    h: HistoryState,
    frontiers: Map<Seq<u8>, ()>,
    row: SealedReactionView,
)
    requires
        !c.is_deleted(row.head.workspace_id, row.head.target_message_id),
        match content_key(h, frontiers, row.head.workspace_id, row.head.removal_frontier_id) {
            None => true,
            Some(secret) => secret.local_key_secret_id != row.head.local_key_secret_id,
        },
    ensures
        reaction_materialized(c, h, frontiers, row) == Ok::<(ContentState, bool), Seq<char>>(
            (c, false),
        ),
{
}

/// Sealed messages of which no two are the same.
pub open spec fn distinct_messages(rows: Seq<SealedMessageView>) -> bool {
    forall|i: int, j: int|
        0 <= i < j < rows.len() ==> (#[trigger] rows[i]).head.message_id != (
        #[trigger] rows[j]).head.message_id
}

proof fn lemma_message_turn(c: ContentState, h: HistoryState, frontiers: Map<Seq<u8>, ()>, rows: Seq<
    SealedMessageView,
>, n: int, x: EventId)
    requires
        0 <= n <= rows.len(),
        messages_drained(c, h, frontiers, rows, n) is Ok,
        forall|i: int| 0 <= i < n ==> (#[trigger] rows[i]).head.message_id != x,
    ensures
        ({
            let after = (messages_drained(c, h, frontiers, rows, n)->Ok_0).0;
            &&& after.message_tombstones == c.message_tombstones
            &&& forall|w: EventId|
                after.messages.contains_key(#[trigger] message_key_bytes(w, x))
                    == c.messages.contains_key(message_key_bytes(w, x))
                    && after.messages[message_key_bytes(w, x)] == c.messages[message_key_bytes(w, x)]
                    && after.sealed_messages.contains_key(message_key_bytes(w, x))
                    == c.sealed_messages.contains_key(message_key_bytes(w, x))
        }),
    decreases n,
{
    if n > 0 {
        lemma_message_turn(c, h, frontiers, rows, n - 1, x);
        let head = rows[n - 1].head;
        let key = message_key_bytes(head.workspace_id, head.message_id);
        assert(head.message_id != x);
        assert forall|w: EventId| #[trigger] message_key_bytes(w, x) != key by {
            if message_key_bytes(w, x) == key {
                assert(message_key_bytes(w, x).skip(32) =~= x@);
                assert(key.skip(32) =~= head.message_id@);
                lemma_id_ext(x, head.message_id);
            }
        }
    }
}

proof fn lemma_message_rest(c: ContentState, h: HistoryState, frontiers: Map<Seq<u8>, ()>, rows: Seq<
    SealedMessageView,
>, i: int, n: int, x: EventId)
    requires
        0 <= i <= n <= rows.len(),
        messages_drained(c, h, frontiers, rows, n) is Ok,
        forall|j: int| i <= j < n ==> (#[trigger] rows[j]).head.message_id != x,
    ensures
        messages_drained(c, h, frontiers, rows, i) is Ok,
        ({
            let before = (messages_drained(c, h, frontiers, rows, i)->Ok_0).0;
            let after = (messages_drained(c, h, frontiers, rows, n)->Ok_0).0;
            &&& after.message_tombstones == before.message_tombstones
            &&& forall|w: EventId|
                after.messages.contains_key(#[trigger] message_key_bytes(w, x))
                    == before.messages.contains_key(message_key_bytes(w, x))
                    && after.messages[message_key_bytes(w, x)] == before.messages[message_key_bytes(
                    w,
                    x,
                )] && after.sealed_messages.contains_key(message_key_bytes(w, x))
                    == before.sealed_messages.contains_key(message_key_bytes(w, x))
        }),
    decreases n - i,
{
    if i < n {
        lemma_message_rest(c, h, frontiers, rows, i, n - 1, x);
        let head = rows[n - 1].head;
        let key = message_key_bytes(head.workspace_id, head.message_id);
        assert(head.message_id != x);
        assert forall|w: EventId| #[trigger] message_key_bytes(w, x) != key by {
            if message_key_bytes(w, x) == key {
                assert(message_key_bytes(w, x).skip(32) =~= x@);
                assert(key.skip(32) =~= head.message_id@);
                lemma_id_ext(x, head.message_id);
            }
        }
    }
}

/// Sealed reactions of which no two are the same.
pub open spec fn distinct_reactions(rows: Seq<SealedReactionView>) -> bool {
    forall|i: int, j: int|
        0 <= i < j < rows.len() ==> (#[trigger] rows[i]).head.reaction_id != (
        #[trigger] rows[j]).head.reaction_id
}

proof fn lemma_reaction_turn(c: ContentState, h: HistoryState, frontiers: Map<Seq<u8>, ()>, rows: Seq<
    SealedReactionView,
>, n: int, x: EventId)
    requires
        0 <= n <= rows.len(),
        reactions_drained(c, h, frontiers, rows, n) is Ok,
        forall|i: int| 0 <= i < n ==> (#[trigger] rows[i]).head.reaction_id != x,
    ensures
        ({
            let after = (reactions_drained(c, h, frontiers, rows, n)->Ok_0).0;
            &&& after.message_tombstones == c.message_tombstones
            &&& forall|w: EventId|
                after.reactions.contains_key(#[trigger] message_key_bytes(w, x))
                    == c.reactions.contains_key(message_key_bytes(w, x))
                    && after.reactions[message_key_bytes(w, x)] == c.reactions[message_key_bytes(w, x)]
                    && after.sealed_reactions.contains_key(message_key_bytes(w, x))
                    == c.sealed_reactions.contains_key(message_key_bytes(w, x))
        }),
    decreases n,
{
    if n > 0 {
        lemma_reaction_turn(c, h, frontiers, rows, n - 1, x);
        let head = rows[n - 1].head;
        let key = message_key_bytes(head.workspace_id, head.reaction_id);
        assert(head.reaction_id != x);
        assert forall|w: EventId| #[trigger] message_key_bytes(w, x) != key by {
            if message_key_bytes(w, x) == key {
                assert(message_key_bytes(w, x).skip(32) =~= x@);
                assert(key.skip(32) =~= head.reaction_id@);
                lemma_id_ext(x, head.reaction_id);
            }
        }
    }
}

proof fn lemma_reaction_rest(c: ContentState, h: HistoryState, frontiers: Map<Seq<u8>, ()>, rows: Seq<
    SealedReactionView,
>, i: int, n: int, x: EventId)
    requires
        0 <= i <= n <= rows.len(),
        reactions_drained(c, h, frontiers, rows, n) is Ok,
        forall|j: int| i <= j < n ==> (#[trigger] rows[j]).head.reaction_id != x,
    ensures
        reactions_drained(c, h, frontiers, rows, i) is Ok,
        ({
            let before = (reactions_drained(c, h, frontiers, rows, i)->Ok_0).0;
            let after = (reactions_drained(c, h, frontiers, rows, n)->Ok_0).0;
            &&& after.message_tombstones == before.message_tombstones
            &&& forall|w: EventId|
                after.reactions.contains_key(#[trigger] message_key_bytes(w, x))
                    == before.reactions.contains_key(message_key_bytes(w, x))
                    && after.reactions[message_key_bytes(w, x)] == before.reactions[message_key_bytes(
                    w,
                    x,
                )] && after.sealed_reactions.contains_key(message_key_bytes(w, x))
                    == before.sealed_reactions.contains_key(message_key_bytes(w, x))
        }),
    decreases n - i,
{
    if i < n {
        lemma_reaction_rest(c, h, frontiers, rows, i, n - 1, x);
        let head = rows[n - 1].head;
        let key = message_key_bytes(head.workspace_id, head.reaction_id);
        assert(head.reaction_id != x);
        assert forall|w: EventId| #[trigger] message_key_bytes(w, x) != key by {
            if message_key_bytes(w, x) == key {
                assert(message_key_bytes(w, x).skip(32) =~= x@);
                assert(key.skip(32) =~= head.reaction_id@);
                lemma_id_ext(x, head.reaction_id);
            }
        }
    }
}

/// The root of a frontier that is known here is the key that a sealed row names.
pub open spec fn key_is_here(
    h: HistoryState,
    frontiers: Map<Seq<u8>, ()>,
    workspace_id: EventId,
    removal_frontier_id: EventId,
    local_key_secret_id: EventId,
) -> bool {
    let k = workspace_id@ + removal_frontier_id@;
    frontiers.contains_key(k) && h.roots.contains_key(k) && h.roots[k].local_key_secret_id
        == local_key_secret_id
}

/// A drain that succeeds leaves out no message. One that is deleted, or opened already, loses its
/// sealed row. Of the others, one whose key is here is opened: its row holds the head and the text
/// that the key uncovers, and the sealed row goes. One whose key is not here waits as it is.
pub proof fn law_every_message_is_dealt_with(
    c: ContentState,
    h: HistoryState,
    frontiers: Map<Seq<u8>, ()>,
    rows: Seq<SealedMessageView>,
    i: int,
)
    requires
        0 <= i < rows.len(),
        distinct_messages(rows),
        messages_drained(c, h, frontiers, rows, rows.len() as int) is Ok,
    ensures
        ({
            let after = (messages_drained(c, h, frontiers, rows, rows.len() as int)->Ok_0).0;
            let head = rows[i].head;
            let key = head.workspace_id@ + head.message_id@;
            let root = h.roots[head.workspace_id@ + head.removal_frontier_id@];
            let hidden = c.message_tombstones.contains_key(key) || c.messages.contains_key(key);
            let here = key_is_here(
                h,
                frontiers,
                head.workspace_id,
                head.removal_frontier_id,
                head.local_key_secret_id,
            );
            &&& hidden || here ==> !after.sealed_messages.contains_key(key)
            &&& hidden || !here ==> after.messages.contains_key(key) == c.messages.contains_key(key)
            &&& !hidden && !here ==> after.sealed_messages.contains_key(key)
                == c.sealed_messages.contains_key(key)
            &&& !hidden && here ==> after.messages.contains_key(key) && after.messages[key].head
                == head && (xchacha20poly1305_opened(
                root.key_secret@,
                message_associated_data(head),
                rows[i].nonce@,
                rows[i].ciphertext,
            ) matches Some(slot) && slot_text(slot) == Ok::<Seq<u8>, Seq<char>>(
                after.messages[key].text,
            ))
        }),
{
    let n = rows.len() as int;
    let x = rows[i].head.message_id;
    assert forall|j: int| 0 <= j < n && j != i implies (#[trigger] rows[j]).head.message_id
        != x by {
        if j < i {
            assert(rows[j].head.message_id != rows[i].head.message_id);
        } else {
            assert(rows[i].head.message_id != rows[j].head.message_id);
        }
    }
    lemma_message_rest(c, h, frontiers, rows, i + 1, n, x);
    assert(messages_drained(c, h, frontiers, rows, i) is Ok);
    lemma_message_turn(c, h, frontiers, rows, i, x);
    assert(rows[i].head.workspace_id@ + x@ == message_key_bytes(rows[i].head.workspace_id, x));
}

/// A drain that succeeds leaves out no reaction. One to a deleted message loses its sealed row.
/// Of the others, one whose key is here is opened, and the sealed row goes. One whose key is not
/// here waits as it is.
pub proof fn law_every_reaction_is_dealt_with(
    c: ContentState,
    h: HistoryState,
    frontiers: Map<Seq<u8>, ()>,
    rows: Seq<SealedReactionView>,
    i: int,
)
    requires
        0 <= i < rows.len(),
        distinct_reactions(rows),
        reactions_drained(c, h, frontiers, rows, rows.len() as int) is Ok,
    ensures
        ({
            let after = (reactions_drained(c, h, frontiers, rows, rows.len() as int)->Ok_0).0;
            let head = rows[i].head;
            let key = head.workspace_id@ + head.reaction_id@;
            let root = h.roots[head.workspace_id@ + head.removal_frontier_id@];
            let hidden = c.message_tombstones.contains_key(
                head.workspace_id@ + head.target_message_id@,
            );
            let here = key_is_here(
                h,
                frontiers,
                head.workspace_id,
                head.removal_frontier_id,
                head.local_key_secret_id,
            );
            &&& hidden || here ==> !after.sealed_reactions.contains_key(key)
            &&& hidden || !here ==> after.reactions.contains_key(key) == c.reactions.contains_key(
                key,
            )
            &&& !hidden && !here ==> after.sealed_reactions.contains_key(key)
                == c.sealed_reactions.contains_key(key)
            &&& !hidden && here ==> after.reactions.contains_key(key)
            &&& !hidden && here && !c.reactions.contains_key(key) ==> after.reactions[key].head
                == head && (xchacha20poly1305_opened(
                root.key_secret@,
                reaction_associated_data(head),
                rows[i].nonce@,
                rows[i].ciphertext,
            ) matches Some(slot) && slot_text(slot) == Ok::<Seq<u8>, Seq<char>>(
                after.reactions[key].emoji,
            ))
        }),
{
    let n = rows.len() as int;
    let x = rows[i].head.reaction_id;
    assert forall|j: int| 0 <= j < n && j != i implies (#[trigger] rows[j]).head.reaction_id
        != x by {
        if j < i {
            assert(rows[j].head.reaction_id != rows[i].head.reaction_id);
        } else {
            assert(rows[i].head.reaction_id != rows[j].head.reaction_id);
        }
    }
    lemma_reaction_rest(c, h, frontiers, rows, i + 1, n, x);
    assert(reactions_drained(c, h, frontiers, rows, i) is Ok);
    lemma_reaction_turn(c, h, frontiers, rows, i, x);
    assert(rows[i].head.workspace_id@ + x@ == message_key_bytes(rows[i].head.workspace_id, x));
}

/// A run deals with every sealed message, where its limit allows for all of them, and with every
/// sealed reaction that is left then. It counts each as opened or as skipped.
pub proof fn law_run_looks_at_every_sealed_row(
    c: ContentState,
    h: HistoryState,
    frontiers: Map<Seq<u8>, ()>,
    limit: usize,
)
    requires
        countable(c.sealed_messages.dom()),
        countable(c.sealed_reactions.dom()),
        c.sealed_messages.dom().len() <= limit,
        c.sealed_reactions.dom().len() <= limit,
        decrypt_drained(c, h, frontiers, limit) is Ok,
    ensures
        ({
            let (after, m, r) = decrypt_drained(c, h, frontiers, limit)->Ok_0;
            let messages = sealed_messages_listed(c, limit);
            let reactions = sealed_reactions_listed(c, limit);
            &&& forall|k: Seq<u8>| #[trigger]
                c.sealed_messages.contains_key(k) ==> messages.contains(c.sealed_messages[k])
            &&& forall|k: Seq<u8>| #[trigger]
                c.sealed_reactions.contains_key(k) ==> reactions.contains(c.sealed_reactions[k])
            &&& messages_drained(c, h, frontiers, messages, messages.len() as int) matches Ok(mid)
                && after.messages == mid.0.messages && after.sealed_messages
                == mid.0.sealed_messages && (reactions_drained(
                mid.0,
                h,
                frontiers,
                reactions,
                reactions.len() as int,
            ) matches Ok(end) && after.reactions == end.0.reactions && after.sealed_reactions
                == end.0.sealed_reactions)
            &&& m.0 + m.1 == messages.len()
            &&& r.0 + r.1 == reactions.len()
            &&& messages.len() == c.sealed_messages.dom().len()
            &&& reactions.len() == c.sealed_reactions.dom().len()
        }),
{
    let messages = sealed_messages_listed(c, limit);
    lemma_first_keys(c.sealed_messages, limit);
    lemma_first_keys(c.sealed_reactions, limit);
    let (d, opened, skipped) = messages_drained(
        c,
        h,
        frontiers,
        messages,
        messages.len() as int,
    )->Ok_0;
    lemma_messages_count(c, h, frontiers, messages, messages.len() as int);
    let reactions = sealed_reactions_listed(d, limit);
    lemma_reactions_count(d, h, frontiers, reactions, reactions.len() as int);
    assert forall|k: Seq<u8>| #[trigger]
        c.sealed_messages.contains_key(k) implies messages.contains(c.sealed_messages[k]) by {
        let keys = first_keys(c.sealed_messages, limit);
        let i = choose|i: int| 0 <= i < keys.len() && keys[i] == k;
        assert(messages[i] == c.sealed_messages[k]);
    }
    assert forall|k: Seq<u8>| #[trigger]
        c.sealed_reactions.contains_key(k) implies sealed_reactions_listed(c, limit).contains(
        c.sealed_reactions[k],
    ) by {
        let keys = first_keys(c.sealed_reactions, limit);
        let i = choose|i: int| 0 <= i < keys.len() && keys[i] == k;
        assert(sealed_reactions_listed(c, limit)[i] == c.sealed_reactions[k]);
    }
}

/// The first keys of a table are all of its keys where there are no more than are asked for.
pub proof fn lemma_first_keys<V>(m: Map<Seq<u8>, V>, limit: usize)
    requires
        countable(m.dom()),
        m.dom().len() <= limit,
    ensures
        first_keys(m, limit).len() == m.dom().len(),
        first_keys(m, limit).no_duplicates(),
        forall|k: Seq<u8>| #[trigger] m.contains_key(k) ==> first_keys(m, limit).contains(k),
        forall|k: Seq<u8>| #[trigger] first_keys(m, limit).contains(k) ==> m.contains_key(k),
{
    lemma_prefix_listed(m.dom(), Seq::empty());
    let all = listing(with_prefix(m.dom(), Seq::empty()));
    assert forall|k: Seq<u8>| has_prefix(k, Seq::<u8>::empty()) by {
        assert(k.take(0) =~= Seq::<u8>::empty());
    }
    all.unique_seq_to_set();
    assert(all.to_set() =~= m.dom());
}

proof fn lemma_messages_count(
    c: ContentState,
    h: HistoryState,
    frontiers: Map<Seq<u8>, ()>,
    rows: Seq<SealedMessageView>,
    n: int,
)
    requires
        0 <= n,
        messages_drained(c, h, frontiers, rows, n) is Ok,
    ensures
        ({
            let (after, opened, skipped) = messages_drained(c, h, frontiers, rows, n)->Ok_0;
            &&& opened + skipped == n
            &&& after.reactions == c.reactions
            &&& after.sealed_reactions == c.sealed_reactions
            &&& after.message_tombstones == c.message_tombstones
        }),
    decreases n,
{
    if n > 0 {
        lemma_messages_count(c, h, frontiers, rows, n - 1);
    }
}

proof fn lemma_reactions_count(
    c: ContentState,
    h: HistoryState,
    frontiers: Map<Seq<u8>, ()>,
    rows: Seq<SealedReactionView>,
    n: int,
)
    requires
        0 <= n,
        reactions_drained(c, h, frontiers, rows, n) is Ok,
    ensures
        ({
            let (after, opened, skipped) = reactions_drained(c, h, frontiers, rows, n)->Ok_0;
            &&& opened + skipped == n
            &&& after.messages == c.messages
            &&& after.sealed_messages == c.sealed_messages
        }),
    decreases n,
{
    if n > 0 {
        lemma_reactions_count(c, h, frontiers, rows, n - 1);
    }
}

/// The seal of a message vouches for everything in its head but its id: heads with the same
/// associated data agree in all of it.
pub proof fn law_message_seal_binds_its_head(a: MessageHead, b: MessageHead)
    requires
        message_associated_data(a) == message_associated_data(b),
    ensures
        a.workspace_id == b.workspace_id,
        a.author_user_id == b.author_user_id,
        a.removal_frontier_id == b.removal_frontier_id,
        a.local_key_secret_id == b.local_key_secret_id,
        a.signer_endpoint_shared_id == b.signer_endpoint_shared_id,
        a.created_at_ms == b.created_at_ms,
{
    let (x, y) = (message_associated_data(a), message_associated_data(b));
    assert(x.subrange(1, 33) =~= a.workspace_id@ && y.subrange(1, 33) =~= b.workspace_id@);
    assert(x.subrange(33, 65) =~= a.author_user_id@ && y.subrange(33, 65) =~= b.author_user_id@);
    assert(x.subrange(65, 97) =~= a.removal_frontier_id@ && y.subrange(65, 97)
        =~= b.removal_frontier_id@);
    assert(x.subrange(97, 129) =~= a.local_key_secret_id@ && y.subrange(97, 129)
        =~= b.local_key_secret_id@);
    assert(x.subrange(129, 161) =~= a.signer_endpoint_shared_id@ && y.subrange(129, 161)
        =~= b.signer_endpoint_shared_id@);
    assert(x.subrange(161, 169) =~= be64(a.created_at_ms) && y.subrange(161, 169) =~= be64(
        b.created_at_ms,
    ));
    lemma_id_ext(a.workspace_id, b.workspace_id);
    lemma_id_ext(a.author_user_id, b.author_user_id);
    lemma_id_ext(a.removal_frontier_id, b.removal_frontier_id);
    lemma_id_ext(a.local_key_secret_id, b.local_key_secret_id);
    lemma_id_ext(a.signer_endpoint_shared_id, b.signer_endpoint_shared_id);
    lemma_be64_injective(a.created_at_ms, b.created_at_ms);
}

/// The seal of a reaction vouches for everything in its head but its id, the message that it is
/// for among it. It is no seal of a message.
pub proof fn law_reaction_seal_binds_its_head(a: ReactionHead, b: ReactionHead, m: MessageHead)
    requires
        reaction_associated_data(a) == reaction_associated_data(b),
    ensures
        a.workspace_id == b.workspace_id,
        a.target_message_id == b.target_message_id,
        a.author_user_id == b.author_user_id,
        a.removal_frontier_id == b.removal_frontier_id,
        a.local_key_secret_id == b.local_key_secret_id,
        a.signer_endpoint_shared_id == b.signer_endpoint_shared_id,
        a.created_at_ms == b.created_at_ms,
        reaction_associated_data(a) != message_associated_data(m),
{
    let (x, y) = (reaction_associated_data(a), reaction_associated_data(b));
    assert(x.subrange(1, 33) =~= a.workspace_id@ && y.subrange(1, 33) =~= b.workspace_id@);
    assert(x.subrange(33, 65) =~= a.target_message_id@ && y.subrange(33, 65)
        =~= b.target_message_id@);
    assert(x.subrange(65, 97) =~= a.author_user_id@ && y.subrange(65, 97) =~= b.author_user_id@);
    assert(x.subrange(97, 129) =~= a.removal_frontier_id@ && y.subrange(97, 129)
        =~= b.removal_frontier_id@);
    assert(x.subrange(129, 161) =~= a.local_key_secret_id@ && y.subrange(129, 161)
        =~= b.local_key_secret_id@);
    assert(x.subrange(161, 193) =~= a.signer_endpoint_shared_id@ && y.subrange(161, 193)
        =~= b.signer_endpoint_shared_id@);
    assert(x.subrange(193, 201) =~= be64(a.created_at_ms) && y.subrange(193, 201) =~= be64(
        b.created_at_ms,
    ));
    lemma_id_ext(a.workspace_id, b.workspace_id);
    lemma_id_ext(a.target_message_id, b.target_message_id);
    lemma_id_ext(a.author_user_id, b.author_user_id);
    lemma_id_ext(a.removal_frontier_id, b.removal_frontier_id);
    lemma_id_ext(a.local_key_secret_id, b.local_key_secret_id);
    lemma_id_ext(a.signer_endpoint_shared_id, b.signer_endpoint_shared_id);
    lemma_be64_injective(a.created_at_ms, b.created_at_ms);
    assert(x[0] == TYPE_SIGNED_REACTION);
    assert(message_associated_data(m)[0] == TYPE_SIGNED_MESSAGE);
}

/// A slot holds the length of its text and then the text, and nothing else.
pub proof fn law_slot_round_trip(t: Seq<u8>)
    requires
        t.len() <= u64::MAX,
    ensures
        slot_text(be64(t.len() as u64) + t) == Ok::<Seq<u8>, Seq<char>>(t),
{
    lemma_take_sized(t, Seq::empty(), "content slot"@);
    assert(be64(t.len() as u64) + t + Seq::<u8>::empty() =~= be64(t.len() as u64) + t);
}

} // verus!
