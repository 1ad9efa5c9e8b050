//! Content events: messages, reactions, files and slices of files. Each begins with the byte
//! of its type; the ids and the number that the workers read stand in the open, what the
//! author wrote is sealed.
use vstd::prelude::*;
use crate::bytes::{be64, put_be64, EventId};
use crate::hash::{blake3_digest, blake3_hash};
use crate::text::{prefixed, text};
use crate::wire::{
    ids_bytes, lemma_take_ids, lemma_take_sized, lemma_take_u64, lemma_take_u8, put_id, put_sized,
    put_u8, sized, take_ids, take_sized, take_u64, take_u8, trailing_text, Reader,
};


verus! {

pub const TYPE_SIGNED_MESSAGE: u8 = 40;

pub const TYPE_SIGNED_REACTION: u8 = 41;

pub const TYPE_SIGNED_FILE: u8 = 42;

pub const TYPE_SIGNED_FILE_SLICE: u8 = 43;

/// What a content event says: its ids in the order of its layout, its number, and what is
/// sealed.
pub struct ContentView {
    pub ids: Seq<EventId>,
    pub number: u64,
    pub sealed: Seq<u8>,
}

/// The bytes of a content event.
pub open spec fn encoded_content(tag: u8, c: ContentView) -> Seq<u8> {
    seq![tag] + ids_bytes(c.ids) + be64(c.number) + sized(c.sealed)
}

/// What some bytes say as a content event with `n` ids, or what is wrong with them.
pub open spec fn decoded_content(s: Seq<u8>, tag: u8, n: nat, what: Seq<char>) -> Result<
    ContentView,
    Seq<char>,
> {
    match take_u8(s, what) {
        Err(e) => Err(e),
        Ok((t, s1)) => if t != tag {
            Err(what + " has another type"@)
        } else {
            match take_ids(s1, n, what) {
                Err(e) => Err(e),
                Ok((ids, s2)) => match take_u64(s2, what) {
                    Err(e) => Err(e),
                    Ok((number, s3)) => match take_sized(s3, what) {
                        Err(e) => Err(e),
                        Ok((sealed, s4)) => if s4.len() > 0 {
                            Err(trailing_text(what))
                        } else {
                            Ok(ContentView { ids, number, sealed })
                        },
                    },
                },
            }
        },
    }
}

/// A content event is read back as it was written.
pub proof fn law_content_round_trip(tag: u8, c: ContentView, what: Seq<char>)
    requires
        c.sealed.len() <= u64::MAX,
    ensures
        decoded_content(encoded_content(tag, c), tag, c.ids.len(), what) == Ok::<
            ContentView,
            Seq<char>,
        >(c),
{
    let empty = Seq::<u8>::empty();
    let t3 = sized(c.sealed) + empty;
    let t2 = be64(c.number) + t3;
    let t1 = ids_bytes(c.ids) + t2;
    assert(encoded_content(tag, c) =~= seq![tag] + t1);
    lemma_take_u8(tag, t1, what);
    lemma_take_ids(c.ids, t2, what);
    lemma_take_u64(c.number, t3, what);
    lemma_take_sized(c.sealed, empty, what);
}

fn put_ids(out: &mut Vec<u8>, ids: &Vec<EventId>)
    ensures
        final(out)@ == old(out)@ + ids_bytes(ids@),
{
    let mut i: usize = 0;
    assert(ids@.take(0) =~= Seq::empty());
    assert(ids_bytes(ids@.take(0)) =~= Seq::<u8>::empty());
    while i < ids.len()
        invariant
            i <= ids@.len(),
            out@ == old(out)@ + ids_bytes(ids@.take(i as int)),
        decreases ids.len() - i,
    {
        put_id(out, &ids[i]);
        proof {
            let next = ids@.take(i + 1);
            assert(next.drop_last() =~= ids@.take(i as int));
            assert(out@ =~= old(out)@ + ids_bytes(next));
        }
        i = i + 1;
    }
    assert(ids@.take(i as int) =~= ids@);
}

fn encode_content(tag: u8, ids: &Vec<EventId>, number: u64, sealed: &[u8]) -> (out: Vec<u8>)
    ensures
        out@ == encoded_content(tag, ContentView { ids: ids@, number, sealed: sealed@ }),
{
    let mut out: Vec<u8> = Vec::new();
    put_u8(&mut out, tag);
    put_ids(&mut out, ids);
    put_be64(&mut out, number);
    put_sized(&mut out, sealed);
    assert(out@ =~= encoded_content(tag, ContentView { ids: ids@, number, sealed: sealed@ }));
    out
}

struct Content {
    ids: Vec<EventId>,
    number: u64,
    sealed: Vec<u8>,
}

impl View for Content {
    type V = ContentView;

    closed spec fn view(&self) -> ContentView {
        ContentView { ids: self.ids@, number: self.number, sealed: self.sealed@ }
    }
}

fn decode_content(bytes: &[u8], tag: u8, n: usize, what: &'static str) -> (r: Result<
    Content,
    String,
>)
    ensures
        match decoded_content(bytes@, tag, n as nat, what@) {
            Ok(v) => r matches Ok(x) && x@ == v && x.ids@.len() == n,
            Err(e) => r matches Err(x) && x@ == e,
        },
{
    let mut reader = Reader::new(bytes, what);
    let t = match reader.u8() {
        Ok(b) => b,
        Err(e) => {
            return Err(e);
        },
    };
    if t != tag {
        return Err(prefixed(what, text(" has another type")));
    }
    let ids = match reader.ids(n) {
        Ok(ids) => ids,
        Err(e) => {
            return Err(e);
        },
    };
    let number = match reader.u64() {
        Ok(x) => x,
        Err(e) => {
            return Err(e);
        },
    };
    let sealed = match reader.sized_bytes() {
        Ok(b) => b,
        Err(e) => {
            return Err(e);
        },
    };
    match reader.finish() {
        Ok(_) => Ok(Content { ids, number, sealed }),
        Err(e) => Err(e),
    }
}

/// The coordinate of an event within its minute: the digest of its type, some ids and the
/// time at which it was written.
pub open spec fn minute_coordinate(tag: u8, ids: Seq<EventId>, created_at_ms: u64) -> EventId {
    blake3_digest(seq![tag] + ids_bytes(ids) + be64(created_at_ms))
}

fn make_minute_coordinate(tag: u8, ids: &Vec<EventId>, created_at_ms: u64) -> (r: EventId)
    ensures
        r == minute_coordinate(tag, ids@, created_at_ms),
{
    let mut input: Vec<u8> = Vec::new();
    put_u8(&mut input, tag);
    put_ids(&mut input, ids);
    put_be64(&mut input, created_at_ms);
    assert(input@ =~= seq![tag] + ids_bytes(ids@) + be64(created_at_ms));
    blake3_hash(input.as_slice())
}

// ---------------------------------------------------------------------------
// Messages
// ---------------------------------------------------------------------------

/// A message.
#[derive(Debug, Clone, Copy, PartialEq, Eq)]
pub struct MessageEvent {
    pub workspace_id: EventId,
    pub author_user_id: EventId,
    pub removal_frontier_id: EventId,
    pub local_history_node_secret_id: EventId,
    pub created_at_ms: u64,
}

/// The ids of a message, in the order of its layout.
pub open spec fn message_ids(m: MessageEvent) -> Seq<EventId> {
    seq![
        m.workspace_id,
        m.author_user_id,
        m.removal_frontier_id,
        m.local_history_node_secret_id,
    ]
}

/// The bytes of a message.
pub open spec fn encoded_message(m: MessageEvent, sealed: Seq<u8>) -> Seq<u8> {
    encoded_content(
        TYPE_SIGNED_MESSAGE,
        ContentView { ids: message_ids(m), number: m.created_at_ms, sealed },
    )
}

/// What some bytes say as a message, or what is wrong with them.
pub open spec fn decoded_message(s: Seq<u8>) -> Result<MessageEvent, Seq<char>> {
    match decoded_content(s, TYPE_SIGNED_MESSAGE, 4, "message"@) {
        Err(e) => Err(e),
        Ok(c) => Ok(
            MessageEvent {
                workspace_id: c.ids[0],
                author_user_id: c.ids[1],
                removal_frontier_id: c.ids[2],
                local_history_node_secret_id: c.ids[3],
                created_at_ms: c.number,
            },
        ),
    }
}

/// The coordinate of a message within its minute.
pub open spec fn message_coordinate(
    workspace_id: EventId,
    author_user_id: EventId,
    removal_frontier_id: EventId,
    created_at_ms: u64,
) -> EventId {
    minute_coordinate(
        TYPE_SIGNED_MESSAGE,
        seq![workspace_id, author_user_id, removal_frontier_id],
        created_at_ms,
    )
}

/// The coordinate of a message within its minute.
pub fn message_event_id_in_minute(
    workspace_id: &EventId,
    author_user_id: &EventId,
    removal_frontier_id: &EventId,
    created_at_ms: u64,
) -> (r: EventId)
    ensures
        r == message_coordinate(
            *workspace_id,
            *author_user_id,
            *removal_frontier_id,
            created_at_ms,
        ),
{
    let ids = vec![*workspace_id, *author_user_id, *removal_frontier_id];
    assert(ids@ =~= seq![*workspace_id, *author_user_id, *removal_frontier_id]);
    make_minute_coordinate(TYPE_SIGNED_MESSAGE, &ids, created_at_ms)
}

/// Write a message.
pub fn encode_message(m: &MessageEvent, sealed: &[u8]) -> (out: Vec<u8>)
    ensures
        out@ == encoded_message(*m, sealed@),
{
    let ids = vec![
        m.workspace_id,
        m.author_user_id,
        m.removal_frontier_id,
        m.local_history_node_secret_id,
    ];
    assert(ids@ =~= message_ids(*m));
    encode_content(TYPE_SIGNED_MESSAGE, &ids, m.created_at_ms, sealed)
}

/// Read a message.
pub fn decode_message(bytes: &[u8]) -> (r: Result<MessageEvent, String>)
    ensures
        match decoded_message(bytes@) {
            Ok(v) => r matches Ok(x) && x == v,
            Err(e) => r matches Err(x) && x@ == e,
        },
{
    match decode_content(bytes, TYPE_SIGNED_MESSAGE, 4, "message") {
        Ok(c) => Ok(
            MessageEvent {
                workspace_id: c.ids[0],
                author_user_id: c.ids[1],
                removal_frontier_id: c.ids[2],
                local_history_node_secret_id: c.ids[3],
                created_at_ms: c.number,
            },
        ),
        Err(e) => Err(e),
    }
}

/// A message is read back as it was written.
pub proof fn law_message_round_trip(m: MessageEvent, sealed: Seq<u8>)
    requires
        sealed.len() <= u64::MAX,
    ensures
        decoded_message(encoded_message(m, sealed)) == Ok::<MessageEvent, Seq<char>>(m),
{
    law_content_round_trip(
        TYPE_SIGNED_MESSAGE,
        ContentView { ids: message_ids(m), number: m.created_at_ms, sealed },
        "message"@,
    );
}

// ---------------------------------------------------------------------------
// Reactions
// ---------------------------------------------------------------------------

/// A reaction to a message.
#[derive(Debug, Clone, Copy, PartialEq, Eq)]
pub struct ReactionEvent {
    pub workspace_id: EventId,
    pub author_user_id: EventId,
    pub target_message_id: EventId,
    pub removal_frontier_id: EventId,
    pub local_history_node_secret_id: EventId,
    pub created_at_ms: u64,
}

/// The ids of a reaction, in the order of its layout.
pub open spec fn reaction_ids(m: ReactionEvent) -> Seq<EventId> {
    seq![
        m.workspace_id,
        m.author_user_id,
        m.target_message_id,
        m.removal_frontier_id,
        m.local_history_node_secret_id,
    ]
}

/// The bytes of a reaction.
pub open spec fn encoded_reaction(m: ReactionEvent, sealed: Seq<u8>) -> Seq<u8> {
    encoded_content(
        TYPE_SIGNED_REACTION,
        ContentView { ids: reaction_ids(m), number: m.created_at_ms, sealed },
    )
}

/// What some bytes say as a reaction, or what is wrong with them.
pub open spec fn decoded_reaction(s: Seq<u8>) -> Result<ReactionEvent, Seq<char>> {
    match decoded_content(s, TYPE_SIGNED_REACTION, 5, "reaction"@) {
        Err(e) => Err(e),
        Ok(c) => Ok(
            ReactionEvent {
                workspace_id: c.ids[0],
                author_user_id: c.ids[1],
                target_message_id: c.ids[2],
                removal_frontier_id: c.ids[3],
                local_history_node_secret_id: c.ids[4],
                created_at_ms: c.number,
            },
        ),
    }
}

/// The coordinate of a reaction within its minute.
pub open spec fn reaction_coordinate(
    workspace_id: EventId,
    author_user_id: EventId,
    target_message_id: EventId,
    removal_frontier_id: EventId,
    created_at_ms: u64,
) -> EventId {
    minute_coordinate(
        TYPE_SIGNED_REACTION,
        seq![workspace_id, author_user_id, target_message_id, removal_frontier_id],
        created_at_ms,
    )
}

/// The coordinate of a reaction within its minute.
pub fn reaction_event_id_in_minute(
    workspace_id: &EventId,
    author_user_id: &EventId,
    target_message_id: &EventId,
    removal_frontier_id: &EventId,
    created_at_ms: u64,
) -> (r: EventId)
    ensures
        r == reaction_coordinate(
            *workspace_id,
            *author_user_id,
            *target_message_id,
            *removal_frontier_id,
            created_at_ms,
        ),
{
    let ids = vec![*workspace_id, *author_user_id, *target_message_id, *removal_frontier_id];
    assert(ids@ =~= seq![
        *workspace_id,
        *author_user_id,
        *target_message_id,
        *removal_frontier_id,
    ]);
    make_minute_coordinate(TYPE_SIGNED_REACTION, &ids, created_at_ms)
}

/// Write a reaction.
pub fn encode_reaction(m: &ReactionEvent, sealed: &[u8]) -> (out: Vec<u8>)
    ensures
        out@ == encoded_reaction(*m, sealed@),
{
    let ids = vec![
        m.workspace_id,
        m.author_user_id,
        m.target_message_id,
        m.removal_frontier_id,
        m.local_history_node_secret_id,
    ];
    assert(ids@ =~= reaction_ids(*m));
    encode_content(TYPE_SIGNED_REACTION, &ids, m.created_at_ms, sealed)
}

/// Read a reaction.
pub fn decode_reaction(bytes: &[u8]) -> (r: Result<ReactionEvent, String>)
    ensures
        match decoded_reaction(bytes@) {
            Ok(v) => r matches Ok(x) && x == v,
            Err(e) => r matches Err(x) && x@ == e,
        },
{
    match decode_content(bytes, TYPE_SIGNED_REACTION, 5, "reaction") {
        Ok(c) => Ok(
            ReactionEvent {
                workspace_id: c.ids[0],
                author_user_id: c.ids[1],
                target_message_id: c.ids[2],
                removal_frontier_id: c.ids[3],
                local_history_node_secret_id: c.ids[4],
                created_at_ms: c.number,
            },
        ),
        Err(e) => Err(e),
    }
}

/// A reaction is read back as it was written.
pub proof fn law_reaction_round_trip(m: ReactionEvent, sealed: Seq<u8>)
    requires
        sealed.len() <= u64::MAX,
    ensures
        decoded_reaction(encoded_reaction(m, sealed)) == Ok::<ReactionEvent, Seq<char>>(m),
{
    law_content_round_trip(
        TYPE_SIGNED_REACTION,
        ContentView { ids: reaction_ids(m), number: m.created_at_ms, sealed },
        "reaction"@,
    );
}

// ---------------------------------------------------------------------------
// Files
// ---------------------------------------------------------------------------

/// A file that is attached to a message.
#[derive(Debug, Clone, Copy, PartialEq, Eq)]
pub struct FileEvent {
    pub workspace_id: EventId,
    pub author_user_id: EventId,
    pub message_id: EventId,
    pub file_id: EventId,
    pub removal_frontier_id: EventId,
    pub local_history_node_secret_id: EventId,
    pub created_at_ms: u64,
}

/// The ids of a file, in the order of its layout.
pub open spec fn file_ids(m: FileEvent) -> Seq<EventId> {
    seq![
        m.workspace_id,
        m.author_user_id,
        m.message_id,
        m.file_id,
        m.removal_frontier_id,
        m.local_history_node_secret_id,
    ]
}

/// The bytes of a file.
pub open spec fn encoded_file(m: FileEvent, sealed: Seq<u8>) -> Seq<u8> {
    encoded_content(
        TYPE_SIGNED_FILE,
        ContentView { ids: file_ids(m), number: m.created_at_ms, sealed },
    )
}

/// What some bytes say as a file, or what is wrong with them.
pub open spec fn decoded_file(s: Seq<u8>) -> Result<FileEvent, Seq<char>> {
    match decoded_content(s, TYPE_SIGNED_FILE, 6, "file"@) {
        Err(e) => Err(e),
        Ok(c) => Ok(
            FileEvent {
                workspace_id: c.ids[0],
                author_user_id: c.ids[1],
                message_id: c.ids[2],
                file_id: c.ids[3],
                removal_frontier_id: c.ids[4],
                local_history_node_secret_id: c.ids[5],
                created_at_ms: c.number,
            },
        ),
    }
}

/// The coordinate of a file within its minute.
pub open spec fn file_coordinate(m: FileEvent) -> EventId {
    minute_coordinate(
        TYPE_SIGNED_FILE,
        seq![m.workspace_id, m.author_user_id, m.message_id, m.file_id, m.removal_frontier_id],
        m.created_at_ms,
    )
}

/// The coordinate of a file within its minute.
pub fn file_event_id_in_minute(m: &FileEvent) -> (r: EventId)
    ensures
        r == file_coordinate(*m),
{
    let ids = vec![
        m.workspace_id,
        m.author_user_id,
        m.message_id,
        m.file_id,
        m.removal_frontier_id,
    ];
    assert(ids@ =~= seq![
        m.workspace_id,
        m.author_user_id,
        m.message_id,
        m.file_id,
        m.removal_frontier_id,
    ]);
    make_minute_coordinate(TYPE_SIGNED_FILE, &ids, m.created_at_ms)
}

/// Write a file.
pub fn encode_file(m: &FileEvent, sealed: &[u8]) -> (out: Vec<u8>)
    ensures
        out@ == encoded_file(*m, sealed@),
{
    let ids = vec![
        m.workspace_id,
        m.author_user_id,
        m.message_id,
        m.file_id,
        m.removal_frontier_id,
        m.local_history_node_secret_id,
    ];
    assert(ids@ =~= file_ids(*m));
    encode_content(TYPE_SIGNED_FILE, &ids, m.created_at_ms, sealed)
}

/// Read a file.
pub fn decode_file(bytes: &[u8]) -> (r: Result<FileEvent, String>)
    ensures
        match decoded_file(bytes@) {
            Ok(v) => r matches Ok(x) && x == v,
            Err(e) => r matches Err(x) && x@ == e,
        },
{
    match decode_content(bytes, TYPE_SIGNED_FILE, 6, "file") {
        Ok(c) => Ok(
            FileEvent {
                workspace_id: c.ids[0],
                author_user_id: c.ids[1],
                message_id: c.ids[2],
                file_id: c.ids[3],
                removal_frontier_id: c.ids[4],
                local_history_node_secret_id: c.ids[5],
                created_at_ms: c.number,
            },
        ),
        Err(e) => Err(e),
    }
}

/// A file is read back as it was written.
pub proof fn law_file_round_trip(m: FileEvent, sealed: Seq<u8>)
    requires
        sealed.len() <= u64::MAX,
    ensures
        decoded_file(encoded_file(m, sealed)) == Ok::<FileEvent, Seq<char>>(m),
{
    law_content_round_trip(
        TYPE_SIGNED_FILE,
        ContentView { ids: file_ids(m), number: m.created_at_ms, sealed },
        "file"@,
    );
}

// ---------------------------------------------------------------------------
// Slices of files
// ---------------------------------------------------------------------------

/// A slice of a file. `file_event_id` is the event that describes the file.
#[derive(Debug, Clone, Copy, PartialEq, Eq)]
pub struct FileSliceEvent {
    pub workspace_id: EventId,
    pub file_id: EventId,
    pub file_event_id: EventId,
    pub slice_number: u64,
}

/// The ids of a slice, in the order of its layout.
pub open spec fn file_slice_ids(m: FileSliceEvent) -> Seq<EventId> {
    seq![m.workspace_id, m.file_id, m.file_event_id]
}

/// The bytes of a slice.
pub open spec fn encoded_file_slice(m: FileSliceEvent, sealed: Seq<u8>) -> Seq<u8> {
    encoded_content(
        TYPE_SIGNED_FILE_SLICE,
        ContentView { ids: file_slice_ids(m), number: m.slice_number, sealed },
    )
}

/// What some bytes say as a slice, or what is wrong with them.
pub open spec fn decoded_file_slice(s: Seq<u8>) -> Result<FileSliceEvent, Seq<char>> {
    match decoded_content(s, TYPE_SIGNED_FILE_SLICE, 3, "file slice"@) {
        Err(e) => Err(e),
        Ok(c) => Ok(
            FileSliceEvent {
                workspace_id: c.ids[0],
                file_id: c.ids[1],
                file_event_id: c.ids[2],
                slice_number: c.number,
            },
        ),
    }
}

/// Write a slice.
pub fn encode_file_slice(m: &FileSliceEvent, sealed: &[u8]) -> (out: Vec<u8>)
    ensures
        out@ == encoded_file_slice(*m, sealed@),
{
    let ids = vec![m.workspace_id, m.file_id, m.file_event_id];
    assert(ids@ =~= file_slice_ids(*m));
    encode_content(TYPE_SIGNED_FILE_SLICE, &ids, m.slice_number, sealed)
}

/// Read a slice.
pub fn decode_file_slice(bytes: &[u8]) -> (r: Result<FileSliceEvent, String>)
    ensures
        match decoded_file_slice(bytes@) {
            Ok(v) => r matches Ok(x) && x == v,
            Err(e) => r matches Err(x) && x@ == e,
        },
{
    match decode_content(bytes, TYPE_SIGNED_FILE_SLICE, 3, "file slice") {
        Ok(c) => Ok(
            FileSliceEvent {
                workspace_id: c.ids[0],
                file_id: c.ids[1],
                file_event_id: c.ids[2],
                slice_number: c.number,
            },
        ),
        Err(e) => Err(e),
    }
}

/// A slice is read back as it was written.
pub proof fn law_file_slice_round_trip(m: FileSliceEvent, sealed: Seq<u8>)
    requires
        sealed.len() <= u64::MAX,
    ensures
        decoded_file_slice(encoded_file_slice(m, sealed)) == Ok::<FileSliceEvent, Seq<char>>(m),
{
    law_content_round_trip(
        TYPE_SIGNED_FILE_SLICE,
        ContentView { ids: file_slice_ids(m), number: m.slice_number, sealed },
        "file slice"@,
    );
}

// ---------------------------------------------------------------------------
// Deletion labels
// ---------------------------------------------------------------------------

/// The first byte of the label that says that a message is deleted.
pub const LABEL_MESSAGE_DELETED: u8 = 1;

/// The first byte of the label that says that a file is deleted.
pub const LABEL_FILE_DELETED: u8 = 2;

/// The label that an author's deletion leaves on an event.
pub open spec fn deletion_label_of(kind: u8, author: EventId) -> Seq<u8> {
    seq![kind] + author@
}

fn make_label(kind: u8, author: &EventId) -> (r: Vec<u8>)
    ensures
        r@ == deletion_label_of(kind, *author),
{
    let mut out: Vec<u8> = Vec::new();
    put_u8(&mut out, kind);
    put_id(&mut out, author);
    assert(out@ =~= deletion_label_of(kind, *author));
    out
}

/// The label that the deletion of a message by an author leaves on the message.
pub fn message_deletion_label(author: &EventId) -> (r: Vec<u8>)
    ensures
        r@ == deletion_label_of(LABEL_MESSAGE_DELETED, *author),
{
    make_label(LABEL_MESSAGE_DELETED, author)
}

/// The label that the deletion of a file by an author leaves on the file.
pub fn file_deletion_label(author: &EventId) -> (r: Vec<u8>)
    ensures
        r@ == deletion_label_of(LABEL_FILE_DELETED, *author),
{
    make_label(LABEL_FILE_DELETED, author)
}

} // verus!
