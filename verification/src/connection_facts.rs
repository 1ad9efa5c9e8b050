//! The events behind a connection: requests, responses and invite secrets, and the first
//! bytes that tell events apart.
use vstd::prelude::*;
use crate::bytes::EventId;
use crate::text::{prefixed, text};
use crate::wire::{
    ids_bytes, lemma_take_id, lemma_take_ids, lemma_take_sized, lemma_take_u8, put_id, put_sized,
    put_u8, sized, take_id, take_ids, take_sized, take_u8, trailing_text, Reader,
};

verus! {

/// The first byte of a workspace.
pub const TYPE_WORKSPACE: u8 = 1;

/// The first byte of a signed envelope; the type of what it holds is the second.
pub const TYPE_SIGNED: u8 = 2;

pub const TYPE_ADMIN: u8 = 3;

pub const TYPE_USER_INVITE: u8 = 4;

pub const TYPE_INVITE_SERVER: u8 = 5;

pub const TYPE_USER: u8 = 6;

pub const TYPE_DEVICE_INVITE: u8 = 7;

pub const TYPE_ENDPOINT_SHARED: u8 = 8;

pub const TYPE_INVITE_SECRET: u8 = 9;

pub const TYPE_CONNECTION_REQUEST: u8 = 20;

pub const TYPE_CONNECTION_RESPONSE: u8 = 21;

pub const TYPE_EPHEMERAL_SECRET: u8 = 22;

pub const TYPE_SYNC_COMPARE: u8 = 30;

pub const TYPE_SYNC_HAVE: u8 = 31;

pub const TYPE_SYNC_NEED: u8 = 32;

/// Some bytes are of a type.
pub open spec fn is_type(bytes: Seq<u8>, t: u8) -> bool {
    bytes.len() > 0 && bytes[0] == t
}

fn has_type(bytes: &[u8], t: u8) -> (r: bool)
    ensures
        r == is_type(bytes@, t),
{
    bytes.len() > 0 && bytes[0] == t
}

/// Whether some bytes are a connection request.
pub fn is_request(bytes: &[u8]) -> (r: bool)
    ensures
        r == is_type(bytes@, TYPE_CONNECTION_REQUEST),
{
    has_type(bytes, TYPE_CONNECTION_REQUEST)
}

/// Whether some bytes are a connection response.
pub fn is_response(bytes: &[u8]) -> (r: bool)
    ensures
        r == is_type(bytes@, TYPE_CONNECTION_RESPONSE),
{
    has_type(bytes, TYPE_CONNECTION_RESPONSE)
}

/// Some bytes are a sync event, which lives as long as its connection.
pub open spec fn connection_scoped(bytes: Seq<u8>) -> bool {
    is_type(bytes, TYPE_SYNC_COMPARE) || is_type(bytes, TYPE_SYNC_HAVE) || is_type(
        bytes,
        TYPE_SYNC_NEED,
    )
}

/// Whether some bytes are a sync event.
pub fn is_connection_scoped_event(bytes: &[u8]) -> (r: bool)
    ensures
        r == connection_scoped(bytes@),
{
    has_type(bytes, TYPE_SYNC_COMPARE) || has_type(bytes, TYPE_SYNC_HAVE) || has_type(
        bytes,
        TYPE_SYNC_NEED,
    )
}

// ---------------------------------------------------------------------------
// Requests
// ---------------------------------------------------------------------------

/// A request for a connection. The listen address is in text form.
#[derive(Debug, Clone, PartialEq, Eq)]
pub struct RequestEvent {
    pub from_endpoint: EventId,
    pub to_endpoint: EventId,
    pub nonce: EventId,
    pub bootstrap_hash: EventId,
    pub invite_secret_event_id: EventId,
    pub from_listen_addr: Option<Vec<u8>>,
}

/// What a request says.
pub struct RequestView {
    pub from_endpoint: EventId,
    pub to_endpoint: EventId,
    pub nonce: EventId,
    pub bootstrap_hash: EventId,
    pub invite_secret_event_id: EventId,
    pub from_listen_addr: Option<Seq<u8>>,
}

impl View for RequestEvent {
    type V = RequestView;

    open spec fn view(&self) -> RequestView {
        RequestView {
            from_endpoint: self.from_endpoint,
            to_endpoint: self.to_endpoint,
            nonce: self.nonce,
            bootstrap_hash: self.bootstrap_hash,
            invite_secret_event_id: self.invite_secret_event_id,
            from_listen_addr: match self.from_listen_addr {
                Some(a) => Some(a@),
                None => None,
            },
        }
    }
}

/// The ids of a request, in the order of its bytes.
pub open spec fn request_ids(r: RequestView) -> Seq<EventId> {
    seq![r.from_endpoint, r.to_endpoint, r.nonce, r.bootstrap_hash, r.invite_secret_event_id]
}

/// The bytes of an optional address.
pub open spec fn encoded_addr(a: Option<Seq<u8>>) -> Seq<u8> {
    match a {
        None => seq![0u8],
        Some(a) => seq![1u8] + sized(a),
    }
}

/// The bytes of a request.
pub open spec fn encoded_request(r: RequestView) -> Seq<u8> {
    seq![TYPE_CONNECTION_REQUEST] + ids_bytes(request_ids(r)) + encoded_addr(r.from_listen_addr)
}

/// What some bytes say as a request, or what is wrong with them.
pub open spec fn decoded_request(s: Seq<u8>) -> Result<RequestView, Seq<char>> {
    let what = "connection request"@;
    match take_u8(s, what) {
        Err(e) => Err(e),
        Ok((tag, s1)) => if tag != TYPE_CONNECTION_REQUEST {
            Err(what + " has another type"@)
        } else {
            match take_ids(s1, 5, what) {
                Err(e) => Err(e),
                Ok((ids, s2)) => match take_u8(s2, what) {
                    Err(e) => Err(e),
                    Ok((present, s3)) => if present == 0 {
                        if s3.len() > 0 {
                            Err(trailing_text(what))
                        } else {
                            Ok(request_of(ids, None))
                        }
                    } else if present != 1 {
                        Err(what + " has an unknown address flag"@)
                    } else {
                        match take_sized(s3, what) {
                            Err(e) => Err(e),
                            Ok((addr, s4)) => if s4.len() > 0 {
                                Err(trailing_text(what))
                            } else {
                                Ok(request_of(ids, Some(addr)))
                            },
                        }
                    },
                },
            }
        },
    }
}

/// The request with some ids and an address.
pub open spec fn request_of(ids: Seq<EventId>, addr: Option<Seq<u8>>) -> RequestView {
    RequestView {
        from_endpoint: ids[0],
        to_endpoint: ids[1],
        nonce: ids[2],
        bootstrap_hash: ids[3],
        invite_secret_event_id: ids[4],
        from_listen_addr: addr,
    }
}

/// A request is read back as it was written.
pub proof fn law_request_round_trip(r: RequestView)
    requires
        r.from_listen_addr matches Some(a) ==> a.len() <= u64::MAX,
    ensures
        decoded_request(encoded_request(r)) == Ok::<RequestView, Seq<char>>(r),
{
    let what = "connection request"@;
    let tail = encoded_addr(r.from_listen_addr);
    let t1 = ids_bytes(request_ids(r)) + tail;
    assert(encoded_request(r) =~= seq![TYPE_CONNECTION_REQUEST] + t1);
    lemma_take_u8(TYPE_CONNECTION_REQUEST, t1, what);
    lemma_take_ids(request_ids(r), tail, what);
    let empty = Seq::<u8>::empty();
    match r.from_listen_addr {
        None => {
            assert(tail =~= seq![0u8] + empty);
            lemma_take_u8(0, empty, what);
        },
        Some(a) => {
            assert(tail =~= seq![1u8] + (sized(a) + empty));
            lemma_take_u8(1, sized(a) + empty, what);
            lemma_take_sized(a, empty, what);
        },
    }
}

/// Write a request.
pub fn encode_request(r: &RequestEvent) -> (out: Vec<u8>)
    ensures
        out@ == encoded_request(r@),
{
    let mut out: Vec<u8> = Vec::new();
    put_u8(&mut out, TYPE_CONNECTION_REQUEST);
    put_id(&mut out, &r.from_endpoint);
    put_id(&mut out, &r.to_endpoint);
    put_id(&mut out, &r.nonce);
    put_id(&mut out, &r.bootstrap_hash);
    put_id(&mut out, &r.invite_secret_event_id);
    proof {
        reveal_with_fuel(ids_bytes, 6);
        let ids = request_ids(r@);
        assert(ids.drop_last().drop_last().drop_last().drop_last().drop_last() =~= Seq::empty());
        assert(out@ =~= seq![TYPE_CONNECTION_REQUEST] + ids_bytes(ids));
    }
    match &r.from_listen_addr {
        None => {
            put_u8(&mut out, 0);
        },
        Some(a) => {
            put_u8(&mut out, 1);
            put_sized(&mut out, a.as_slice());
        },
    }
    assert(out@ =~= encoded_request(r@));
    out
}

/// Read a request.
pub fn decode_request(bytes: &[u8]) -> (r: Result<RequestEvent, String>)
    ensures
        match decoded_request(bytes@) {
            Ok(v) => r matches Ok(x) && x@ == v,
            Err(e) => r matches Err(x) && x@ == e,
        },
{
    let mut reader = Reader::new(bytes, "connection request");
    let tag = match reader.u8() {
        Ok(b) => b,
        Err(e) => {
            return Err(e);
        },
    };
    if tag != TYPE_CONNECTION_REQUEST {
        return Err(prefixed("connection request", text(" has another type")));
    }
    let ids = match reader.ids(5) {
        Ok(ids) => ids,
        Err(e) => {
            return Err(e);
        },
    };
    let present = match reader.u8() {
        Ok(b) => b,
        Err(e) => {
            return Err(e);
        },
    };
    let from_listen_addr = if present == 0 {
        None
    } else if present != 1 {
        return Err(prefixed("connection request", text(" has an unknown address flag")));
    } else {
        match reader.sized_bytes() {
            Ok(a) => Some(a),
            Err(e) => {
                return Err(e);
            },
        }
    };
    match reader.finish() {
        Ok(_) => Ok(
            RequestEvent {
                from_endpoint: ids[0],
                to_endpoint: ids[1],
                nonce: ids[2],
                bootstrap_hash: ids[3],
                invite_secret_event_id: ids[4],
                from_listen_addr,
            },
        ),
        Err(e) => Err(e),
    }
}

// ---------------------------------------------------------------------------
// Responses
// ---------------------------------------------------------------------------

/// The answer to a request. Its id is the id of the connection.
#[derive(Debug, Clone, Copy, PartialEq, Eq)]
pub struct ResponseEvent {
    pub from_endpoint: EventId,
    pub to_endpoint: EventId,
    pub request_id: EventId,
    pub responder_ephemeral_secret_event_id: EventId,
    pub responder_ephemeral_public_key: EventId,
    pub handshake_hash: EventId,
    pub connection_secret: EventId,
}

/// The ids of a response, in the order of its bytes.
pub open spec fn response_ids(r: ResponseEvent) -> Seq<EventId> {
    seq![
        r.from_endpoint,
        r.to_endpoint,
        r.request_id,
        r.responder_ephemeral_secret_event_id,
        r.responder_ephemeral_public_key,
        r.handshake_hash,
        r.connection_secret,
    ]
}

/// The bytes of a response.
pub open spec fn encoded_response(r: ResponseEvent) -> Seq<u8> {
    seq![TYPE_CONNECTION_RESPONSE] + ids_bytes(response_ids(r))
}

/// What some bytes say as a response, or what is wrong with them.
pub open spec fn decoded_response(s: Seq<u8>) -> Result<ResponseEvent, Seq<char>> {
    let what = "connection response"@;
    match take_u8(s, what) {
        Err(e) => Err(e),
        Ok((tag, s1)) => if tag != TYPE_CONNECTION_RESPONSE {
            Err(what + " has another type"@)
        } else {
            match take_ids(s1, 7, what) {
                Err(e) => Err(e),
                Ok((ids, s2)) => if s2.len() > 0 {
                    Err(trailing_text(what))
                } else {
                    Ok(
                        ResponseEvent {
                            from_endpoint: ids[0],
                            to_endpoint: ids[1],
                            request_id: ids[2],
                            responder_ephemeral_secret_event_id: ids[3],
                            responder_ephemeral_public_key: ids[4],
                            handshake_hash: ids[5],
                            connection_secret: ids[6],
                        },
                    )
                },
            }
        },
    }
}

/// A response is read back as it was written.
pub proof fn law_response_round_trip(r: ResponseEvent)
    ensures
        decoded_response(encoded_response(r)) == Ok::<ResponseEvent, Seq<char>>(r),
{
    let what = "connection response"@;
    let empty = Seq::<u8>::empty();
    let t1 = ids_bytes(response_ids(r));
    lemma_take_u8(TYPE_CONNECTION_RESPONSE, t1, what);
    lemma_take_ids(response_ids(r), empty, what);
    assert(t1 + empty =~= t1);
}

/// Write a response.
pub fn encode_response(r: &ResponseEvent) -> (out: Vec<u8>)
    ensures
        out@ == encoded_response(*r),
{
    let mut out: Vec<u8> = Vec::new();
    put_u8(&mut out, TYPE_CONNECTION_RESPONSE);
    put_id(&mut out, &r.from_endpoint);
    put_id(&mut out, &r.to_endpoint);
    put_id(&mut out, &r.request_id);
    put_id(&mut out, &r.responder_ephemeral_secret_event_id);
    put_id(&mut out, &r.responder_ephemeral_public_key);
    put_id(&mut out, &r.handshake_hash);
    put_id(&mut out, &r.connection_secret);
    proof {
        reveal_with_fuel(ids_bytes, 8);
        let ids = response_ids(*r);
        assert(
        ids.drop_last().drop_last().drop_last().drop_last().drop_last().drop_last().drop_last()
            =~= Seq::empty());
        assert(out@ =~= encoded_response(*r));
    }
    out
}

/// Read a response.
pub fn decode_response(bytes: &[u8]) -> (r: Result<ResponseEvent, String>)
    ensures
        match decoded_response(bytes@) {
            Ok(v) => r matches Ok(x) && x == v,
            Err(e) => r matches Err(x) && x@ == e,
        },
{
    let mut reader = Reader::new(bytes, "connection response");
    let tag = match reader.u8() {
        Ok(b) => b,
        Err(e) => {
            return Err(e);
        },
    };
    if tag != TYPE_CONNECTION_RESPONSE {
        return Err(prefixed("connection response", text(" has another type")));
    }
    let ids = match reader.ids(7) {
        Ok(ids) => ids,
        Err(e) => {
            return Err(e);
        },
    };
    match reader.finish() {
        Ok(_) => Ok(
            ResponseEvent {
                from_endpoint: ids[0],
                to_endpoint: ids[1],
                request_id: ids[2],
                responder_ephemeral_secret_event_id: ids[3],
                responder_ephemeral_public_key: ids[4],
                handshake_hash: ids[5],
                connection_secret: ids[6],
            },
        ),
        Err(e) => Err(e),
    }
}

// ---------------------------------------------------------------------------
// Invite secrets
// ---------------------------------------------------------------------------

/// The secret of an invite. One that is scoped names a workspace and the invite event.
#[derive(Debug, Clone, Copy, PartialEq, Eq)]
pub struct InviteSecretEvent {
    pub bootstrap_secret: EventId,
    pub bootstrap_hash: EventId,
    pub workspace_id: Option<EventId>,
    pub invite_event_id: Option<EventId>,
}

/// The bytes of an optional id.
pub open spec fn encoded_optional_id(id: Option<EventId>) -> Seq<u8> {
    match id {
        None => seq![0u8],
        Some(id) => seq![1u8] + ids_bytes(seq![id]),
    }
}

/// An optional id in front, and what is behind it.
pub open spec fn take_optional_id(s: Seq<u8>, what: Seq<char>) -> Result<
    (Option<EventId>, Seq<u8>),
    Seq<char>,
> {
    match take_u8(s, what) {
        Err(e) => Err(e),
        Ok((present, s1)) => if present == 0 {
            Ok((None, s1))
        } else if present != 1 {
            Err(what + " has an unknown id flag"@)
        } else {
            match take_ids(s1, 1, what) {
                Err(e) => Err(e),
                Ok((ids, s2)) => Ok((Some(ids[0]), s2)),
            }
        },
    }
}

proof fn lemma_take_optional_id(id: Option<EventId>, rest: Seq<u8>, what: Seq<char>)
    ensures
        take_optional_id(encoded_optional_id(id) + rest, what) == Ok::<
            (Option<EventId>, Seq<u8>),
            Seq<char>,
        >((id, rest)),
{
    match id {
        None => {
            lemma_take_u8(0, rest, what);
        },
        Some(x) => {
            let t = ids_bytes(seq![x]) + rest;
            assert(encoded_optional_id(id) + rest =~= seq![1u8] + t);
            lemma_take_u8(1, t, what);
            lemma_take_ids(seq![x], rest, what);
        },
    }
}

fn put_optional_id(out: &mut Vec<u8>, id: &Option<EventId>)
    ensures
        final(out)@ == old(out)@ + encoded_optional_id(*id),
{
    match id {
        None => {
            put_u8(out, 0);
        },
        Some(x) => {
            put_u8(out, 1);
            put_id(out, x);
            proof {
                reveal_with_fuel(ids_bytes, 2);
                assert(seq![*x].drop_last() =~= Seq::empty());
            }
        },
    }
    assert(out@ =~= old(out)@ + encoded_optional_id(*id));
}

fn read_optional_id(reader: &mut Reader<'_>, what: &'static str) -> (r: Result<
    Option<EventId>,
    String,
>)
    requires
        old(reader).wf(),
        old(reader).what() == what@,
    ensures
        final(reader).wf(),
        final(reader).what() == old(reader).what(),
        match take_optional_id(old(reader).rest(), old(reader).what()) {
            Ok((id, rest)) => r matches Ok(x) && x == id && final(reader).rest() == rest,
            Err(e) => r matches Err(x) && x@ == e,
        },
{
    let present = match reader.u8() {
        Ok(b) => b,
        Err(e) => {
            return Err(e);
        },
    };
    if present == 0 {
        return Ok(None);
    }
    if present != 1 {
        return Err(prefixed(what, text(" has an unknown id flag")));
    }
    match reader.ids(1) {
        Ok(ids) => Ok(Some(ids[0])),
        Err(e) => Err(e),
    }
}

/// The bytes of an invite secret.
pub open spec fn encoded_invite_secret(i: InviteSecretEvent) -> Seq<u8> {
    seq![TYPE_INVITE_SECRET] + ids_bytes(seq![i.bootstrap_secret, i.bootstrap_hash]) + encoded_optional_id(
        i.workspace_id,
    ) + encoded_optional_id(i.invite_event_id)
}

/// What some bytes say as an invite secret, or what is wrong with them.
pub open spec fn decoded_invite_secret(s: Seq<u8>) -> Result<InviteSecretEvent, Seq<char>> {
    let what = "invite secret"@;
    match take_u8(s, what) {
        Err(e) => Err(e),
        Ok((tag, s1)) => if tag != TYPE_INVITE_SECRET {
            Err(what + " has another type"@)
        } else {
            match take_ids(s1, 2, what) {
                Err(e) => Err(e),
                Ok((ids, s2)) => match take_optional_id(s2, what) {
                    Err(e) => Err(e),
                    Ok((workspace_id, s3)) => match take_optional_id(s3, what) {
                        Err(e) => Err(e),
                        Ok((invite_event_id, s4)) => if s4.len() > 0 {
                            Err(trailing_text(what))
                        } else {
                            Ok(
                                InviteSecretEvent {
                                    bootstrap_secret: ids[0],
                                    bootstrap_hash: ids[1],
                                    workspace_id,
                                    invite_event_id,
                                },
                            )
                        },
                    },
                },
            }
        },
    }
}

/// An invite secret is read back as it was written.
pub proof fn law_invite_secret_round_trip(i: InviteSecretEvent)
    ensures
        decoded_invite_secret(encoded_invite_secret(i)) == Ok::<InviteSecretEvent, Seq<char>>(i),
{
    let what = "invite secret"@;
    let empty = Seq::<u8>::empty();
    let t3 = encoded_optional_id(i.invite_event_id) + empty;
    let t2 = encoded_optional_id(i.workspace_id) + t3;
    let t1 = ids_bytes(seq![i.bootstrap_secret, i.bootstrap_hash]) + t2;
    assert(encoded_invite_secret(i) =~= seq![TYPE_INVITE_SECRET] + t1);
    lemma_take_u8(TYPE_INVITE_SECRET, t1, what);
    lemma_take_ids(seq![i.bootstrap_secret, i.bootstrap_hash], t2, what);
    lemma_take_optional_id(i.workspace_id, t3, what);
    lemma_take_optional_id(i.invite_event_id, empty, what);
}

/// Write an invite secret.
pub fn encode_invite_secret(i: &InviteSecretEvent) -> (out: Vec<u8>)
    ensures
        out@ == encoded_invite_secret(*i),
{
    let mut out: Vec<u8> = Vec::new();
    put_u8(&mut out, TYPE_INVITE_SECRET);
    put_id(&mut out, &i.bootstrap_secret);
    put_id(&mut out, &i.bootstrap_hash);
    proof {
        reveal_with_fuel(ids_bytes, 3);
        let ids = seq![i.bootstrap_secret, i.bootstrap_hash];
        assert(ids.drop_last().drop_last() =~= Seq::empty());
        assert(out@ =~= seq![TYPE_INVITE_SECRET] + ids_bytes(ids));
    }
    put_optional_id(&mut out, &i.workspace_id);
    put_optional_id(&mut out, &i.invite_event_id);
    out
}

/// Read an invite secret.
pub fn decode_invite_secret(bytes: &[u8]) -> (r: Result<InviteSecretEvent, String>)
    ensures
        match decoded_invite_secret(bytes@) {
            Ok(v) => r matches Ok(x) && x == v,
            Err(e) => r matches Err(x) && x@ == e,
        },
{
    let mut reader = Reader::new(bytes, "invite secret");
    let tag = match reader.u8() {
        Ok(b) => b,
        Err(e) => {
            return Err(e);
        },
    };
    if tag != TYPE_INVITE_SECRET {
        return Err(prefixed("invite secret", text(" has another type")));
    }
    let ids = match reader.ids(2) {
        Ok(ids) => ids,
        Err(e) => {
            return Err(e);
        },
    };
    let workspace_id = match read_optional_id(&mut reader, "invite secret") {
        Ok(id) => id,
        Err(e) => {
            return Err(e);
        },
    };
    let invite_event_id = match read_optional_id(&mut reader, "invite secret") {
        Ok(id) => id,
        Err(e) => {
            return Err(e);
        },
    };
    match reader.finish() {
        Ok(_) => Ok(
            InviteSecretEvent {
                bootstrap_secret: ids[0],
                bootstrap_hash: ids[1],
                workspace_id,
                invite_event_id,
            },
        ),
        Err(e) => Err(e),
    }
}

// ---------------------------------------------------------------------------
// Ephemeral secrets
// ---------------------------------------------------------------------------

/// The private key that one side of a handshake was done with.
#[derive(Debug, Clone, Copy, PartialEq, Eq)]
pub struct EphemeralSecretEvent {
    pub ephemeral_private_key: EventId,
}

/// The bytes of an ephemeral secret.
pub open spec fn encoded_ephemeral_secret(e: EphemeralSecretEvent) -> Seq<u8> {
    seq![TYPE_EPHEMERAL_SECRET] + e.ephemeral_private_key@
}

/// What some bytes say as an ephemeral secret, or what is wrong with them.
pub open spec fn decoded_ephemeral_secret(s: Seq<u8>) -> Result<EphemeralSecretEvent, Seq<char>> {
    let what = "ephemeral secret"@;
    match take_u8(s, what) {
        Err(e) => Err(e),
        Ok((tag, s1)) => if tag != TYPE_EPHEMERAL_SECRET {
            Err(what + " has another type"@)
        } else {
            match take_id(s1, what) {
                Err(e) => Err(e),
                Ok((ephemeral_private_key, s2)) => if s2.len() > 0 {
                    Err(trailing_text(what))
                } else {
                    Ok(EphemeralSecretEvent { ephemeral_private_key })
                },
            }
        },
    }
}

/// An ephemeral secret is read back as it was written.
pub proof fn law_ephemeral_secret_round_trip(e: EphemeralSecretEvent)
    ensures
        decoded_ephemeral_secret(encoded_ephemeral_secret(e)) == Ok::<
            EphemeralSecretEvent,
            Seq<char>,
        >(e),
{
    let what = "ephemeral secret"@;
    let empty = Seq::<u8>::empty();
    lemma_take_u8(TYPE_EPHEMERAL_SECRET, e.ephemeral_private_key@, what);
    lemma_take_id(e.ephemeral_private_key, empty, what);
    assert(e.ephemeral_private_key@ + empty =~= e.ephemeral_private_key@);
}

/// Write an ephemeral secret.
pub fn encode_ephemeral_secret(e: &EphemeralSecretEvent) -> (out: Vec<u8>)
    ensures
        out@ == encoded_ephemeral_secret(*e),
{
    let mut out: Vec<u8> = Vec::new();
    put_u8(&mut out, TYPE_EPHEMERAL_SECRET);
    put_id(&mut out, &e.ephemeral_private_key);
    assert(out@ =~= encoded_ephemeral_secret(*e));
    out
}

/// Read an ephemeral secret.
pub fn decode_ephemeral_secret(bytes: &[u8]) -> (r: Result<EphemeralSecretEvent, String>)
    ensures
        match decoded_ephemeral_secret(bytes@) {
            Ok(v) => r == Ok::<EphemeralSecretEvent, String>(v),
            Err(e) => r matches Err(x) && x@ == e,
        },
{
    let mut reader = Reader::new(bytes, "ephemeral secret");
    let tag = match reader.u8() {
        Ok(b) => b,
        Err(e) => {
            return Err(e);
        },
    };
    if tag != TYPE_EPHEMERAL_SECRET {
        return Err(prefixed("ephemeral secret", text(" has another type")));
    }
    let ephemeral_private_key = match reader.id() {
        Ok(id) => id,
        Err(e) => {
            return Err(e);
        },
    };
    match reader.finish() {
        Ok(_) => Ok(EphemeralSecretEvent { ephemeral_private_key }),
        Err(e) => Err(e),
    }
}

// ---------------------------------------------------------------------------
// Identity events
// ---------------------------------------------------------------------------

/// Whether some bytes are an event that a new member needs, or what is wrong with them: a
/// workspace, or a signed admin, user invite, invite server, user, device invite or shared
/// endpoint.
pub open spec fn identity_bootstrap(bytes: Seq<u8>) -> Result<bool, Seq<char>> {
    if is_type(bytes, TYPE_WORKSPACE) {
        Ok(true)
    } else if is_type(bytes, TYPE_SIGNED) {
        if bytes.len() < 2 {
            Err("signed envelope is truncated"@)
        } else {
            Ok(
                bytes[1] == TYPE_ADMIN || bytes[1] == TYPE_USER_INVITE || bytes[1]
                    == TYPE_INVITE_SERVER || bytes[1] == TYPE_USER || bytes[1] == TYPE_DEVICE_INVITE
                    || bytes[1] == TYPE_ENDPOINT_SHARED,
            )
        }
    } else {
        Ok(false)
    }
}

/// Tell whether some bytes are an event that a new member needs.
pub fn is_identity_bootstrap_event(bytes: &[u8]) -> (r: Result<bool, String>)
    ensures
        match identity_bootstrap(bytes@) {
            Ok(b) => r matches Ok(x) && x == b,
            Err(e) => r matches Err(x) && x@ == e,
        },
{
    if has_type(bytes, TYPE_WORKSPACE) {
        return Ok(true);
    }
    if !has_type(bytes, TYPE_SIGNED) {
        return Ok(false);
    }
    if bytes.len() < 2 {
        return Err(text("signed envelope is truncated"));
    }
    let inner = bytes[1];
    Ok(
        inner == TYPE_ADMIN || inner == TYPE_USER_INVITE || inner == TYPE_INVITE_SERVER || inner
            == TYPE_USER || inner == TYPE_DEVICE_INVITE || inner == TYPE_ENDPOINT_SHARED,
    )
}

/// The events that a new member needs are a workspace, and a signed admin, user invite, invite
/// server, user, device invite or shared endpoint; nothing else is one.
pub proof fn law_what_a_new_member_needs(bytes: Seq<u8>)
    requires
        bytes.len() >= 2,
    ensures
        bytes[0] == TYPE_WORKSPACE ==> identity_bootstrap(bytes) == Ok::<bool, Seq<char>>(true),
        bytes[0] == TYPE_SIGNED && bytes[1] == TYPE_ADMIN ==> identity_bootstrap(bytes) == Ok::<
            bool,
            Seq<char>,
        >(true),
        bytes[0] == TYPE_SIGNED && bytes[1] == TYPE_USER_INVITE ==> identity_bootstrap(bytes)
            == Ok::<bool, Seq<char>>(true),
        bytes[0] == TYPE_SIGNED && bytes[1] == TYPE_INVITE_SERVER ==> identity_bootstrap(bytes)
            == Ok::<bool, Seq<char>>(true),
        bytes[0] == TYPE_SIGNED && bytes[1] == TYPE_USER ==> identity_bootstrap(bytes) == Ok::<
            bool,
            Seq<char>,
        >(true),
        bytes[0] == TYPE_SIGNED && bytes[1] == TYPE_DEVICE_INVITE ==> identity_bootstrap(bytes)
            == Ok::<bool, Seq<char>>(true),
        bytes[0] == TYPE_SIGNED && bytes[1] == TYPE_ENDPOINT_SHARED ==> identity_bootstrap(bytes)
            == Ok::<bool, Seq<char>>(true),
        identity_bootstrap(bytes) == Ok::<bool, Seq<char>>(true) ==> bytes[0] == TYPE_WORKSPACE || (
        bytes[0] == TYPE_SIGNED && seq![
            TYPE_ADMIN,
            TYPE_USER_INVITE,
            TYPE_INVITE_SERVER,
            TYPE_USER,
            TYPE_DEVICE_INVITE,
            TYPE_ENDPOINT_SHARED,
        ].contains(bytes[1])),
        identity_bootstrap(bytes) is Ok,
{
    let needed = seq![
        TYPE_ADMIN,
        TYPE_USER_INVITE,
        TYPE_INVITE_SERVER,
        TYPE_USER,
        TYPE_DEVICE_INVITE,
        TYPE_ENDPOINT_SHARED,
    ];
    assert(needed[0] == TYPE_ADMIN && needed[1] == TYPE_USER_INVITE && needed[2]
        == TYPE_INVITE_SERVER && needed[3] == TYPE_USER && needed[4] == TYPE_DEVICE_INVITE
        && needed[5] == TYPE_ENDPOINT_SHARED);
}

} // verus!
