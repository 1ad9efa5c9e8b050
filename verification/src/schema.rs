//! Queue rows of the workers and their codecs.
//!
//! A queue row is work that waits for a worker. The tables here hold no durable history:
//! what is lost with the process is recreated from durable facts or sent again by a peer.
use vstd::prelude::*;
use vstd::utf8::valid_utf8;
use crate::bytes::{
    be64, be64_at, copy_bytes, from_be64, has_prefix, id_at, id_bytes, id_pair, id_with,
    lemma_be64_ordered, lemma_be64_round_trip, lemma_id_with, lemma_lex_behind,
    lemma_lex_irreflexive, lemma_lex_transitive, lex_lt, put_be64, zero_bytes, zero_id, EventId,
};
use crate::events::{module_error, module_error_text};
use crate::hash::{blake3_digest, domain_hash};
use crate::store::Store;
use crate::table::{
    is_listing, lemma_ascending_distinct, lemma_listing_exists, listing, with_prefix,
};
use crate::tables::{
    keys_listed, keys_of, pair_views, rows_listed, RowView, Rows, TableName, TableRow,
};
use crate::text::{decimal, numbered, text};
use crate::types::{
    receive_view, EventIndexEntry, EventRecord, ReceiveAuthorization, ReceiveMetadata, ReceiveView,
};
use crate::wire::{
    lemma_take_id, lemma_take_sized, lemma_take_text, lemma_take_u8, put_id, put_sized, put_u8,
    sized, take_id, take_sized, take_text, take_u8, trailing_text, Reader,
};

verus! {

pub const CANONICAL_IN: TableName = TableName::CanonicalIn;

pub const EVENT_RECEIVE_CONTEXT: TableName = TableName::EventReceiveContext;

pub const RECENTLY_VALID_EVENTS: TableName = TableName::RecentlyValidEvents;

pub const APPLIED_SHARED_EVENTS: TableName = TableName::AppliedSharedEvents;

pub const SYNC_IN_EVENTS: TableName = TableName::SyncInEvents;

pub const TRANSIT_OUT: TableName = TableName::TransitOut;

/// Which transit envelope the inner bytes came out of.
#[derive(Debug, Clone, Copy, PartialEq, Eq)]
pub enum TransitUnwrap {
    /// A bootstrap envelope for the local endpoint key.
    Bootstrap,
    /// A bootstrap envelope under an invite key.
    InviteBootstrap { bootstrap_hash: EventId, workspace_id: EventId, invite_event_id: EventId },
    /// An envelope of an established connection.
    Connection { connection_id: EventId },
}

/// Where the bytes of a transit envelope came from. `origin` is the socket address of the
/// sender in text form.
#[derive(Debug, Clone, PartialEq, Eq)]
pub struct TransitProvenance {
    pub origin: Vec<u8>,
    /// The local endpoint whose key opened the envelope.
    pub local_endpoint: EventId,
    /// The remote endpoint that the envelope proves.
    pub sender_endpoint: EventId,
    /// Whether the origin may be remembered as a route.
    pub remember_route: bool,
    pub unwrapped_with: TransitUnwrap,
}

/// What a provenance says.
pub struct ProvenanceView {
    pub origin: Seq<u8>,
    pub local_endpoint: EventId,
    pub sender_endpoint: EventId,
    pub remember_route: bool,
    pub unwrapped_with: TransitUnwrap,
}

impl View for TransitProvenance {
    type V = ProvenanceView;

    open spec fn view(&self) -> ProvenanceView {
        ProvenanceView {
            origin: self.origin@,
            local_endpoint: self.local_endpoint,
            sender_endpoint: self.sender_endpoint,
            remember_route: self.remember_route,
            unwrapped_with: self.unwrapped_with,
        }
    }
}

/// What an optional provenance says.
pub open spec fn provenance_view(p: Option<TransitProvenance>) -> Option<ProvenanceView> {
    match p {
        Some(p) => Some(p@),
        None => None,
    }
}

/// A row that waits for admission.
#[derive(Debug, Clone, PartialEq, Eq)]
pub struct CanonicalIn {
    pub key: Vec<u8>,
    /// The bytes of an event, decoded only once the row is claimed.
    pub canonical_bytes: Vec<u8>,
    /// How an event that is classified already was received.
    pub receive: Option<ReceiveMetadata>,
    /// Where bytes that still have to be classified came from.
    pub provenance: Option<TransitProvenance>,
}

/// What a row that waits for admission says, apart from its key.
pub struct CanonicalInView {
    pub canonical_bytes: Seq<u8>,
    pub receive: Option<ReceiveView>,
    pub provenance: Option<ProvenanceView>,
}

impl CanonicalIn {
    /// What the row says, apart from its key.
    pub open spec fn content(&self) -> CanonicalInView {
        CanonicalInView {
            canonical_bytes: self.canonical_bytes@,
            receive: receive_view(self.receive),
            provenance: provenance_view(self.provenance),
        }
    }
}

/// An applied event whose dependents may go on.
#[derive(Debug, Clone, PartialEq, Eq)]
pub struct RecentlyValidEvent {
    pub key: Vec<u8>,
    pub event_id: EventId,
}

/// An applied shared event that the sync index has not seen.
#[derive(Debug, Clone, PartialEq, Eq)]
pub struct AppliedSharedEvent {
    pub key: Vec<u8>,
    pub entry: EventIndexEntry,
}

/// A sync event that arrived over a connection.
#[derive(Debug, Clone, PartialEq, Eq)]
pub struct SyncInEvent {
    pub connection_id: EventId,
    pub event_id: EventId,
    pub event_bytes: Vec<u8>,
}

impl SyncInEvent {
    /// The key of its row.
    pub fn key(&self) -> (r: Vec<u8>)
        ensures
            r@ == self.connection_id@ + self.event_id@,
    {
        id_pair(&self.connection_id, &self.event_id)
    }
}

/// An event that waits to be sent over a connection.
#[derive(Debug, Clone, Copy, PartialEq, Eq)]
pub struct TransitOutKey {
    pub connection_id: EventId,
    pub event_id: EventId,
}

impl TransitOutKey {
    /// The key of its row.
    pub fn to_bytes(self) -> (r: Vec<u8>)
        ensures
            r@ == self.connection_id@ + self.event_id@,
    {
        id_pair(&self.connection_id, &self.event_id)
    }
}

// ---------------------------------------------------------------------------
// Receive metadata
// ---------------------------------------------------------------------------

/// One byte for a flag.
pub open spec fn flag(b: bool) -> u8 {
    if b {
        1
    } else {
        0
    }
}

fn flag_byte(b: bool) -> (r: u8)
    ensures
        r == flag(b),
{
    if b {
        1
    } else {
        0
    }
}

/// One byte for an authorization.
pub open spec fn authorization_tag(a: ReceiveAuthorization) -> u8 {
    match a {
        ReceiveAuthorization::BootstrapInvite => 0,
        ReceiveAuthorization::EndpointReceive => 1,
    }
}

/// The text form of an address: UTF-8 that fits in memory.
pub open spec fn origin_fits(origin: Seq<u8>) -> bool {
    valid_utf8(origin) && origin.len() <= u64::MAX
}

/// The bytes of optional receive metadata.
pub open spec fn encoded_receive(r: Option<ReceiveView>) -> Seq<u8> {
    match r {
        None => seq![0u8],
        Some(r) => seq![1u8] + sized(r.origin) + r.local_endpoint@ + r.remote_endpoint@ + seq![
            flag(r.remember_route),
        ] + seq![authorization_tag(r.authorization)],
    }
}

/// Optional receive metadata in front, and what is behind it.
pub open spec fn decoded_receive(s: Seq<u8>, what: Seq<char>) -> Result<
    (Option<ReceiveView>, Seq<u8>),
    Seq<char>,
> {
    match take_u8(s, what) {
        Err(e) => Err(e),
        Ok((present, s1)) => if present == 0 {
            Ok((None, s1))
        } else if present != 1 {
            Err("unknown canonical in receive flag "@ + decimal(present as nat))
        } else {
            match take_text(s1, what, "canonical in receive origin is not utf8: "@) {
                Err(e) => Err(e),
                Ok((origin, s2)) => match take_id(s2, what) {
                    Err(e) => Err(e),
                    Ok((local_endpoint, s3)) => match take_id(s3, what) {
                        Err(e) => Err(e),
                        Ok((remote_endpoint, s4)) => match take_u8(s4, what) {
                            Err(e) => Err(e),
                            Ok((remember, s5)) => if remember > 1 {
                                Err(
                                    "unknown canonical in remember-route flag "@ + decimal(
                                        remember as nat,
                                    ),
                                )
                            } else {
                                match take_u8(s5, what) {
                                    Err(e) => Err(e),
                                    Ok((tag, s6)) => if tag > 1 {
                                        Err(
                                            "unknown canonical in receive authorization "@
                                                + decimal(tag as nat),
                                        )
                                    } else {
                                        Ok(
                                            (
                                                Some(
                                                    ReceiveView {
                                                        origin,
                                                        local_endpoint,
                                                        remote_endpoint,
                                                        remember_route: remember == 1,
                                                        authorization: if tag == 0 {
                                                            ReceiveAuthorization::BootstrapInvite
                                                        } else {
                                                            ReceiveAuthorization::EndpointReceive
                                                        },
                                                    },
                                                ),
                                                s6,
                                            ),
                                        )
                                    },
                                }
                            },
                        },
                    },
                },
            }
        },
    }
}

/// Receive metadata is read back as it was written.
pub proof fn lemma_receive_round_trip(r: Option<ReceiveView>, rest: Seq<u8>, what: Seq<char>)
    requires
        r matches Some(m) ==> origin_fits(m.origin),
    ensures
        decoded_receive(encoded_receive(r) + rest, what) == Ok::<
            (Option<ReceiveView>, Seq<u8>),
            Seq<char>,
        >((r, rest)),
{
    match r {
        None => {
            lemma_take_u8(0, rest, what);
        },
        Some(m) => {
            let t6 = seq![authorization_tag(m.authorization)] + rest;
            let t5 = seq![flag(m.remember_route)] + t6;
            let t4 = m.remote_endpoint@ + t5;
            let t3 = m.local_endpoint@ + t4;
            let t2 = sized(m.origin) + t3;
            assert(encoded_receive(r) + rest =~= seq![1u8] + t2);
            lemma_take_u8(1, t2, what);
            lemma_take_text(m.origin, t3, what, "canonical in receive origin is not utf8: "@);
            lemma_take_id(m.local_endpoint, t4, what);
            lemma_take_id(m.remote_endpoint, t5, what);
            lemma_take_u8(flag(m.remember_route), t6, what);
            lemma_take_u8(authorization_tag(m.authorization), rest, what);
        },
    }
}

fn encode_receive(out: &mut Vec<u8>, receive: &Option<ReceiveMetadata>)
    ensures
        final(out)@ == old(out)@ + encoded_receive(receive_view(*receive)),
{
    match receive {
        None => {
            put_u8(out, 0);
        },
        Some(m) => {
            put_u8(out, 1);
            put_sized(out, m.origin.as_slice());
            put_id(out, &m.local_endpoint);
            put_id(out, &m.remote_endpoint);
            put_u8(out, flag_byte(m.remember_route));
            match m.authorization {
                ReceiveAuthorization::BootstrapInvite => put_u8(out, 0),
                ReceiveAuthorization::EndpointReceive => put_u8(out, 1),
            }
        },
    }
    assert(out@ =~= old(out)@ + encoded_receive(receive_view(*receive)));
}

fn decode_receive(reader: &mut Reader<'_>) -> (r: Result<Option<ReceiveMetadata>, String>)
    requires
        old(reader).wf(),
    ensures
        final(reader).wf(),
        final(reader).what() == old(reader).what(),
        match decoded_receive(old(reader).rest(), old(reader).what()) {
            Ok((m, rest)) => r matches Ok(x) && receive_view(x) == m && final(reader).rest()
                == rest,
            Err(e) => r matches Err(x) && x@ == e,
        },
{
    let present = match reader.u8() {
        Ok(b) => b,
        Err(e) => {
            return Err(e);
        },
    };
    if present == 0 {
        return Ok(None);
    }
    if present != 1 {
        return Err(numbered("unknown canonical in receive flag ", present as u64));
    }
    let origin = match reader.text_bytes("canonical in receive origin is not utf8: ") {
        Ok(b) => b,
        Err(e) => {
            return Err(e);
        },
    };
    let local_endpoint = match reader.id() {
        Ok(id) => id,
        Err(e) => {
            return Err(e);
        },
    };
    let remote_endpoint = match reader.id() {
        Ok(id) => id,
        Err(e) => {
            return Err(e);
        },
    };
    let remember = match reader.u8() {
        Ok(b) => b,
        Err(e) => {
            return Err(e);
        },
    };
    if remember > 1 {
        return Err(numbered("unknown canonical in remember-route flag ", remember as u64));
    }
    let tag = match reader.u8() {
        Ok(b) => b,
        Err(e) => {
            return Err(e);
        },
    };
    match tag {
        0 => Ok(
            Some(
                ReceiveMetadata::bootstrap_invite(
                    origin,
                    local_endpoint,
                    remote_endpoint,
                    remember == 1,
                ),
            ),
        ),
        1 => Ok(
            Some(
                ReceiveMetadata::endpoint_receive(
                    origin,
                    local_endpoint,
                    remote_endpoint,
                    remember == 1,
                ),
            ),
        ),
        other => Err(numbered("unknown canonical in receive authorization ", other as u64)),
    }
}

// ---------------------------------------------------------------------------
// Transit provenance
// ---------------------------------------------------------------------------

/// The bytes of an unwrap.
pub open spec fn encoded_unwrap(u: TransitUnwrap) -> Seq<u8> {
    match u {
        TransitUnwrap::Bootstrap => seq![0u8],
        TransitUnwrap::Connection { connection_id } => seq![1u8] + connection_id@,
        TransitUnwrap::InviteBootstrap { bootstrap_hash, workspace_id, invite_event_id } => seq![
            2u8,
        ] + bootstrap_hash@ + workspace_id@ + invite_event_id@,
    }
}

/// An unwrap in front, and what is behind it.
pub open spec fn decoded_unwrap(s: Seq<u8>, what: Seq<char>) -> Result<
    (TransitUnwrap, Seq<u8>),
    Seq<char>,
> {
    match take_u8(s, what) {
        Err(e) => Err(e),
        Ok((tag, s1)) => if tag == 0 {
            Ok((TransitUnwrap::Bootstrap, s1))
        } else if tag == 1 {
            match take_id(s1, what) {
                Err(e) => Err(e),
                Ok((connection_id, s2)) => Ok((TransitUnwrap::Connection { connection_id }, s2)),
            }
        } else if tag == 2 {
            match take_id(s1, what) {
                Err(e) => Err(e),
                Ok((bootstrap_hash, s2)) => match take_id(s2, what) {
                    Err(e) => Err(e),
                    Ok((workspace_id, s3)) => match take_id(s3, what) {
                        Err(e) => Err(e),
                        Ok((invite_event_id, s4)) => Ok(
                            (
                                TransitUnwrap::InviteBootstrap {
                                    bootstrap_hash,
                                    workspace_id,
                                    invite_event_id,
                                },
                                s4,
                            ),
                        ),
                    },
                },
            }
        } else {
            Err("unknown canonical in transit unwrap tag "@ + decimal(tag as nat))
        },
    }
}

/// The bytes of an optional provenance.
pub open spec fn encoded_provenance(p: Option<ProvenanceView>) -> Seq<u8> {
    match p {
        None => seq![0u8],
        Some(p) => seq![1u8] + sized(p.origin) + p.local_endpoint@ + p.sender_endpoint@ + seq![
            flag(p.remember_route),
        ] + encoded_unwrap(p.unwrapped_with),
    }
}

/// An optional provenance in front, and what is behind it.
pub open spec fn decoded_provenance(s: Seq<u8>, what: Seq<char>) -> Result<
    (Option<ProvenanceView>, Seq<u8>),
    Seq<char>,
> {
    match take_u8(s, what) {
        Err(e) => Err(e),
        Ok((present, s1)) => if present == 0 {
            Ok((None, s1))
        } else if present != 1 {
            Err("unknown canonical in transit provenance flag "@ + decimal(present as nat))
        } else {
            match take_text(s1, what, "canonical in transit origin is not utf8: "@) {
                Err(e) => Err(e),
                Ok((origin, s2)) => match take_id(s2, what) {
                    Err(e) => Err(e),
                    Ok((local_endpoint, s3)) => match take_id(s3, what) {
                        Err(e) => Err(e),
                        Ok((sender_endpoint, s4)) => match take_u8(s4, what) {
                            Err(e) => Err(e),
                            Ok((remember, s5)) => if remember > 1 {
                                Err(
                                    "unknown canonical in transit remember flag "@ + decimal(
                                        remember as nat,
                                    ),
                                )
                            } else {
                                match decoded_unwrap(s5, what) {
                                    Err(e) => Err(e),
                                    Ok((unwrapped_with, s6)) => Ok(
                                        (
                                            Some(
                                                ProvenanceView {
                                                    origin,
                                                    local_endpoint,
                                                    sender_endpoint,
                                                    remember_route: remember == 1,
                                                    unwrapped_with,
                                                },
                                            ),
                                            s6,
                                        ),
                                    ),
                                }
                            },
                        },
                    },
                },
            }
        },
    }
}

proof fn lemma_unwrap_round_trip(u: TransitUnwrap, rest: Seq<u8>, what: Seq<char>)
    ensures
        decoded_unwrap(encoded_unwrap(u) + rest, what) == Ok::<
            (TransitUnwrap, Seq<u8>),
            Seq<char>,
        >((u, rest)),
{
    match u {
        TransitUnwrap::Bootstrap => {
            lemma_take_u8(0, rest, what);
        },
        TransitUnwrap::Connection { connection_id } => {
            assert(encoded_unwrap(u) + rest =~= seq![1u8] + (connection_id@ + rest));
            lemma_take_u8(1, connection_id@ + rest, what);
            lemma_take_id(connection_id, rest, what);
        },
        TransitUnwrap::InviteBootstrap { bootstrap_hash, workspace_id, invite_event_id } => {
            let t3 = invite_event_id@ + rest;
            let t2 = workspace_id@ + t3;
            let t1 = bootstrap_hash@ + t2;
            assert(encoded_unwrap(u) + rest =~= seq![2u8] + t1);
            lemma_take_u8(2, t1, what);
            lemma_take_id(bootstrap_hash, t2, what);
            lemma_take_id(workspace_id, t3, what);
            lemma_take_id(invite_event_id, rest, what);
        },
    }
}

/// A provenance is read back as it was written.
pub proof fn lemma_provenance_round_trip(p: Option<ProvenanceView>, rest: Seq<u8>, what: Seq<char>)
    requires
        p matches Some(m) ==> origin_fits(m.origin),
    ensures
        decoded_provenance(encoded_provenance(p) + rest, what) == Ok::<
            (Option<ProvenanceView>, Seq<u8>),
            Seq<char>,
        >((p, rest)),
{
    match p {
        None => {
            lemma_take_u8(0, rest, what);
        },
        Some(m) => {
            let t6 = encoded_unwrap(m.unwrapped_with) + rest;
            let t5 = seq![flag(m.remember_route)] + t6;
            let t4 = m.sender_endpoint@ + t5;
            let t3 = m.local_endpoint@ + t4;
            let t2 = sized(m.origin) + t3;
            assert(encoded_provenance(p) + rest =~= seq![1u8] + t2);
            lemma_take_u8(1, t2, what);
            lemma_take_text(m.origin, t3, what, "canonical in transit origin is not utf8: "@);
            lemma_take_id(m.local_endpoint, t4, what);
            lemma_take_id(m.sender_endpoint, t5, what);
            lemma_take_u8(flag(m.remember_route), t6, what);
            lemma_unwrap_round_trip(m.unwrapped_with, rest, what);
        },
    }
}

fn encode_transit_provenance(out: &mut Vec<u8>, provenance: &Option<TransitProvenance>)
    ensures
        final(out)@ == old(out)@ + encoded_provenance(provenance_view(*provenance)),
{
    match provenance {
        None => {
            put_u8(out, 0);
        },
        Some(m) => {
            put_u8(out, 1);
            put_sized(out, m.origin.as_slice());
            put_id(out, &m.local_endpoint);
            put_id(out, &m.sender_endpoint);
            put_u8(out, flag_byte(m.remember_route));
            match m.unwrapped_with {
                TransitUnwrap::Bootstrap => put_u8(out, 0),
                TransitUnwrap::Connection { connection_id } => {
                    put_u8(out, 1);
                    put_id(out, &connection_id);
                },
                TransitUnwrap::InviteBootstrap {
                    bootstrap_hash,
                    workspace_id,
                    invite_event_id,
                } => {
                    put_u8(out, 2);
                    put_id(out, &bootstrap_hash);
                    put_id(out, &workspace_id);
                    put_id(out, &invite_event_id);
                },
            }
        },
    }
    assert(out@ =~= old(out)@ + encoded_provenance(provenance_view(*provenance)));
}

fn decode_unwrap(reader: &mut Reader<'_>) -> (r: Result<TransitUnwrap, String>)
    requires
        old(reader).wf(),
    ensures
        final(reader).wf(),
        final(reader).what() == old(reader).what(),
        match decoded_unwrap(old(reader).rest(), old(reader).what()) {
            Ok((u, rest)) => r matches Ok(x) && x == u && final(reader).rest() == rest,
            Err(e) => r matches Err(x) && x@ == e,
        },
{
    let tag = match reader.u8() {
        Ok(b) => b,
        Err(e) => {
            return Err(e);
        },
    };
    match tag {
        0 => Ok(TransitUnwrap::Bootstrap),
        1 => match reader.id() {
            Ok(connection_id) => Ok(TransitUnwrap::Connection { connection_id }),
            Err(e) => Err(e),
        },
        2 => {
            let bootstrap_hash = match reader.id() {
                Ok(id) => id,
                Err(e) => {
                    return Err(e);
                },
            };
            let workspace_id = match reader.id() {
                Ok(id) => id,
                Err(e) => {
                    return Err(e);
                },
            };
            match reader.id() {
                Ok(invite_event_id) => Ok(
                    TransitUnwrap::InviteBootstrap {
                        bootstrap_hash,
                        workspace_id,
                        invite_event_id,
                    },
                ),
                Err(e) => Err(e),
            }
        },
        other => Err(numbered("unknown canonical in transit unwrap tag ", other as u64)),
    }
}

fn decode_transit_provenance(reader: &mut Reader<'_>) -> (r: Result<
    Option<TransitProvenance>,
    String,
>)
    requires
        old(reader).wf(),
    ensures
        final(reader).wf(),
        final(reader).what() == old(reader).what(),
        match decoded_provenance(old(reader).rest(), old(reader).what()) {
            Ok((p, rest)) => r matches Ok(x) && provenance_view(x) == p && final(reader).rest()
                == rest,
            Err(e) => r matches Err(x) && x@ == e,
        },
{
    let present = match reader.u8() {
        Ok(b) => b,
        Err(e) => {
            return Err(e);
        },
    };
    if present == 0 {
        return Ok(None);
    }
    if present != 1 {
        return Err(numbered("unknown canonical in transit provenance flag ", present as u64));
    }
    let origin = match reader.text_bytes("canonical in transit origin is not utf8: ") {
        Ok(b) => b,
        Err(e) => {
            return Err(e);
        },
    };
    let local_endpoint = match reader.id() {
        Ok(id) => id,
        Err(e) => {
            return Err(e);
        },
    };
    let sender_endpoint = match reader.id() {
        Ok(id) => id,
        Err(e) => {
            return Err(e);
        },
    };
    let remember = match reader.u8() {
        Ok(b) => b,
        Err(e) => {
            return Err(e);
        },
    };
    if remember > 1 {
        return Err(numbered("unknown canonical in transit remember flag ", remember as u64));
    }
    match decode_unwrap(reader) {
        Ok(unwrapped_with) => Ok(
            Some(
                TransitProvenance {
                    origin,
                    local_endpoint,
                    sender_endpoint,
                    remember_route: remember == 1,
                    unwrapped_with,
                },
            ),
        ),
        Err(e) => Err(e),
    }
}

// ---------------------------------------------------------------------------
// Canonical in
// ---------------------------------------------------------------------------

/// The value of a row that waits for admission.
pub open spec fn encoded_canonical_in(c: CanonicalInView) -> Seq<u8> {
    sized(c.canonical_bytes) + encoded_receive(c.receive) + encoded_provenance(c.provenance)
}

/// What the value of a row that waits for admission says, or what is wrong with it.
pub open spec fn decoded_canonical_in(s: Seq<u8>) -> Result<CanonicalInView, Seq<char>> {
    let what = "canonical in row"@;
    match take_sized(s, what) {
        Err(e) => Err(e),
        Ok((canonical_bytes, s1)) => match decoded_receive(s1, what) {
            Err(e) => Err(e),
            Ok((receive, s2)) => match decoded_provenance(s2, what) {
                Err(e) => Err(e),
                Ok((provenance, s3)) => if s3.len() > 0 {
                    Err(trailing_text(what))
                } else {
                    Ok(CanonicalInView { canonical_bytes, receive, provenance })
                },
            },
        },
    }
}

/// The texts of a row are texts, and its texts and bytes fit in memory.
pub open spec fn canonical_in_fits(c: CanonicalInView) -> bool {
    &&& c.canonical_bytes.len() <= u64::MAX
    &&& c.receive matches Some(m) ==> origin_fits(m.origin)
    &&& c.provenance matches Some(m) ==> origin_fits(m.origin)
}

/// What is queued for admission is claimed as it was queued.
pub proof fn law_canonical_in_round_trip(c: CanonicalInView)
    requires
        canonical_in_fits(c),
    ensures
        decoded_canonical_in(encoded_canonical_in(c)) == Ok::<CanonicalInView, Seq<char>>(c),
{
    let what = "canonical in row"@;
    let empty = Seq::<u8>::empty();
    let t2 = encoded_provenance(c.provenance) + empty;
    let t1 = encoded_receive(c.receive) + t2;
    assert(encoded_canonical_in(c) =~= sized(c.canonical_bytes) + t1);
    lemma_take_sized(c.canonical_bytes, t1, what);
    lemma_receive_round_trip(c.receive, t2, what);
    lemma_provenance_round_trip(c.provenance, empty, what);
}

fn encode_canonical_in(
    canonical_bytes: &[u8],
    receive: &Option<ReceiveMetadata>,
    provenance: &Option<TransitProvenance>,
) -> (r: Vec<u8>)
    ensures
        r@ == encoded_canonical_in(
            CanonicalInView {
                canonical_bytes: canonical_bytes@,
                receive: receive_view(*receive),
                provenance: provenance_view(*provenance),
            },
        ),
{
    let mut out: Vec<u8> = Vec::new();
    put_sized(&mut out, canonical_bytes);
    encode_receive(&mut out, receive);
    encode_transit_provenance(&mut out, provenance);
    proof {
        let c = CanonicalInView {
            canonical_bytes: canonical_bytes@,
            receive: receive_view(*receive),
            provenance: provenance_view(*provenance),
        };
        assert(out@ =~= encoded_canonical_in(c));
    }
    out
}

/// Claim one row that waits for admission.
fn decode_canonical_in(key: &Vec<u8>, value: &Vec<u8>) -> (r: Result<CanonicalIn, String>)
    ensures
        match decoded_canonical_in(value@) {
            Ok(c) => r matches Ok(x) && x.content() == c && x.key@ == key@,
            Err(e) => r matches Err(x) && x@ == e,
        },
{
    let mut reader = Reader::new(value.as_slice(), "canonical in row");
    let canonical_bytes = match reader.sized_bytes() {
        Ok(b) => b,
        Err(e) => {
            return Err(e);
        },
    };
    let receive = match decode_receive(&mut reader) {
        Ok(m) => m,
        Err(e) => {
            return Err(e);
        },
    };
    let provenance = match decode_transit_provenance(&mut reader) {
        Ok(p) => p,
        Err(e) => {
            return Err(e);
        },
    };
    match reader.finish() {
        Ok(_) => Ok(
            CanonicalIn {
                key: copy_bytes(key.as_slice()),
                canonical_bytes,
                receive,
                provenance,
            },
        ),
        Err(e) => Err(e),
    }
}

/// The text in front of a queued value in the digest that is its key.
pub open spec fn canonical_in_domain() -> Seq<u8> {
    seq![
        0x74u8, 0x6fu8, 0x70u8, 0x6fu8, 0x3au8, 0x65u8, 0x76u8, 0x65u8, 0x6eu8, 0x74u8, 0x2du8,
        0x69u8, 0x6eu8, 0x3au8, 0x76u8, 0x31u8, 0x3au8,
    ]
}

/// The key of a row that waits for admission: the digest of a domain text and its value.
pub open spec fn canonical_in_key_of(value: Seq<u8>) -> Seq<u8> {
    blake3_digest(canonical_in_domain() + value)@
}

fn canonical_in_key(value: &Vec<u8>) -> (r: Vec<u8>)
    ensures
        r@ == canonical_in_key_of(value@),
{
    let domain: [u8; 17] = [
        0x74, 0x6f, 0x70, 0x6f, 0x3a, 0x65, 0x76, 0x65, 0x6e, 0x74, 0x2d, 0x69, 0x6e, 0x3a, 0x76,
        0x31, 0x3a,
    ];
    assert(domain@ =~= canonical_in_domain());
    id_bytes(&domain_hash(domain.as_slice(), value.as_slice()))
}

/// The row that queues something for admission.
pub open spec fn canonical_in_row_of(c: CanonicalInView) -> RowView {
    let value = encoded_canonical_in(c);
    RowView { table: CANONICAL_IN, key: canonical_in_key_of(value), value }
}

/// Queue a record for admission, with how it was received.
pub fn canonical_in_row(event: EventRecord, receive: Option<ReceiveMetadata>) -> (r: TableRow)
    ensures
        r@ == canonical_in_row_of(
            CanonicalInView {
                canonical_bytes: event.canonical_bytes@,
                receive: receive_view(receive),
                provenance: None,
            },
        ),
{
    let value = encode_canonical_in(event.canonical_bytes.as_slice(), &receive, &None);
    TableRow { table: CANONICAL_IN, key: canonical_in_key(&value), value }
}

/// Queue bytes out of a transit envelope for admission.
pub fn transit_canonical_in_row(canonical_bytes: Vec<u8>, provenance: TransitProvenance) -> (r:
    TableRow)
    ensures
        r@ == canonical_in_row_of(
            CanonicalInView {
                canonical_bytes: canonical_bytes@,
                receive: None,
                provenance: Some(provenance@),
            },
        ),
{
    let value = encode_canonical_in(canonical_bytes.as_slice(), &None, &Some(provenance));
    TableRow { table: CANONICAL_IN, key: canonical_in_key(&value), value }
}

/// The values of some results when all of them are good, or else the first error.
pub open spec fn collected<T>(items: Seq<Result<T, Seq<char>>>) -> Result<Seq<T>, Seq<char>>
    decreases items.len(),
{
    if items.len() == 0 {
        Ok(Seq::empty())
    } else {
        match collected(items.drop_last()) {
            Err(e) => Err(e),
            Ok(values) => match items.last() {
                Err(e) => Err(e),
                Ok(v) => Ok(values.push(v)),
            },
        }
    }
}

/// A failure at some place is the failure of the whole when it comes first.
pub proof fn lemma_collected_fails<T>(items: Seq<Result<T, Seq<char>>>, n: int)
    requires
        0 <= n <= items.len(),
        collected(items.take(n)) is Err,
    ensures
        collected(items) == collected(items.take(n)),
    decreases items.len() - n,
{
    if n < items.len() {
        assert(items.take(n + 1).drop_last() =~= items.take(n));
        lemma_collected_fails(items, n + 1);
    } else {
        assert(items.take(n) =~= items);
    }
}

/// One more good result.
pub proof fn lemma_collected_step<T>(items: Seq<Result<T, Seq<char>>>, n: int)
    requires
        0 <= n < items.len(),
        collected(items.take(n)) is Ok,
    ensures
        items[n] matches Ok(v) ==> collected(items.take(n + 1)) == Ok::<Seq<T>, Seq<char>>(
            (collected(items.take(n))->Ok_0).push(v),
        ),
        items[n] matches Err(e) ==> collected(items) == Err::<Seq<T>, Seq<char>>(e),
{
    assert(items.take(n + 1).drop_last() =~= items.take(n));
    assert(items.take(n + 1).last() == items[n]);
    if items[n] is Err {
        lemma_collected_fails(items, n + 1);
    }
}

/// As many values come out as results went in.
pub proof fn lemma_collected_len<T>(items: Seq<Result<T, Seq<char>>>)
    ensures
        collected(items) matches Ok(values) ==> values.len() == items.len(),
    decreases items.len(),
{
    if items.len() > 0 {
        lemma_collected_len(items.drop_last());
    }
}

/// What the first rows that wait for admission say, or what is wrong with one of them.
pub open spec fn claimed_canonical_in(m: Rows, limit: usize) -> Result<
    Seq<(Seq<u8>, CanonicalInView)>,
    Seq<char>,
> {
    collected(
        rows_listed(m, CANONICAL_IN, Seq::empty(), limit).map_values(
            |row: (Seq<u8>, Seq<u8>)|
                match decoded_canonical_in(row.1) {
                    Ok(c) => Ok((row.0, c)),
                    Err(e) => Err(module_error_text(e)),
                },
        ),
    )
}

/// What claimed rows say.
pub open spec fn canonical_in_views(rows: Seq<CanonicalIn>) -> Seq<(Seq<u8>, CanonicalInView)> {
    rows.map_values(|r: CanonicalIn| (r.key@, r.content()))
}

/// Read the first rows that wait for admission, in key order.
pub fn claim_canonical_in(store: &Store, limit: usize) -> (r: Result<Vec<CanonicalIn>, String>)
    requires
        store.wf(),
    ensures
        match claimed_canonical_in(store@.rows, limit) {
            Ok(v) => r matches Ok(rows) && canonical_in_views(rows@) == v,
            Err(e) => r matches Err(x) && x@ == e,
        },
{
    let empty: Vec<u8> = Vec::new();
    let rows = store.tables.table_rows_with_key_prefix(CANONICAL_IN, empty.as_slice(), limit);
    let ghost listed = rows_listed(store@.rows, CANONICAL_IN, Seq::empty(), limit);
    let ghost items = listed.map_values(
        |row: (Seq<u8>, Seq<u8>)|
            match decoded_canonical_in(row.1) {
                Ok(c) => Ok((row.0, c)),
                Err(e) => Err(module_error_text(e)),
            },
    );
    proof {
        assert(empty@ =~= Seq::<u8>::empty());
        assert(items.len() == rows@.len());
    }
    let mut out: Vec<CanonicalIn> = Vec::new();
    let mut i: usize = 0;
    assert(canonical_in_views(out@) =~= Seq::empty());
    while i < rows.len()
        invariant
            i <= rows@.len(),
            pair_views(rows@) == listed,
            items == listed.map_values(
                |row: (Seq<u8>, Seq<u8>)|
                    match decoded_canonical_in(row.1) {
                        Ok(c) => Ok((row.0, c)),
                        Err(e) => Err(module_error_text(e)),
                    },
            ),
            items.len() == rows@.len(),
            claimed_canonical_in(store@.rows, limit) == collected(items),
            collected(items.take(i as int)) == Ok::<Seq<(Seq<u8>, CanonicalInView)>, Seq<char>>(
                canonical_in_views(out@),
            ),
        decreases rows.len() - i,
    {
        proof {
            assert(pair_views(rows@)[i as int] == (rows@[i as int].0@, rows@[i as int].1@));
            lemma_collected_step(items, i as int);
        }
        match decode_canonical_in(&rows[i].0, &rows[i].1) {
            Ok(c) => {
                let ghost before = out@;
                out.push(c);
                assert(canonical_in_views(out@) =~= canonical_in_views(before).push(
                    (c.key@, c.content()),
                ));
            },
            Err(e) => {
                return Err(module_error(e));
            },
        }
        i = i + 1;
    }
    assert(items.take(i as int) =~= items);
    Ok(out)
}

/// A listing that is not cut short holds every row of a table, and nothing else.
proof fn lemma_rows_listed(m: Rows, t: TableName, limit: usize)
    requires
        keys_of(m, t).finite(),
        keys_of(m, t).len() <= limit,
    ensures
        forall|k: Seq<u8>, v: Seq<u8>| #[trigger]
            rows_listed(m, t, Seq::empty(), limit).contains((k, v)) <==> m.contains_key((t, k))
                && m[(t, k)] == v,
{
    let dom = keys_of(m, t);
    let empty = Seq::<u8>::empty();
    assert(with_prefix(dom, empty) =~= dom) by {
        assert forall|k: Seq<u8>| has_prefix(k, empty) by {
            assert(k.take(0) =~= empty);
        }
    }
    lemma_listing_exists(dom);
    let all = listing(dom);
    lemma_ascending_distinct(all);
    assert(all.to_set() =~= dom) by {
        assert forall|k: Seq<u8>| all.to_set().contains(k) <==> #[trigger] dom.contains(k) by {
        }
    }
    all.unique_seq_to_set();
    assert(keys_listed(m, t, empty, limit) == all);
    let listed = rows_listed(m, t, empty, limit);
    assert forall|k: Seq<u8>, v: Seq<u8>| #[trigger] listed.contains((k, v)) <==> m.contains_key(
        (t, k),
    ) && m[(t, k)] == v by {
        if listed.contains((k, v)) {
            let i = choose|i: int| 0 <= i < listed.len() && listed[i] == (k, v);
            assert(all.contains(all[i]));
            assert(dom.contains(k));
        }
        if m.contains_key((t, k)) && m[(t, k)] == v {
            assert(dom.contains(k));
            assert(all.contains(k));
            let i = choose|i: int| 0 <= i < all.len() && all[i] == k;
            assert(listed[i] == (k, v));
        }
    }
}

/// When all results are good, each value is that of its result, in the same place.
pub proof fn lemma_collected_at<T>(items: Seq<Result<T, Seq<char>>>)
    ensures
        collected(items) matches Ok(values) ==> {
            &&& values.len() == items.len()
            &&& forall|i: int|
                0 <= i < items.len() ==> #[trigger] items[i] == Ok::<T, Seq<char>>(values[i])
        },
    decreases items.len(),
{
    if items.len() > 0 {
        let rest = items.drop_last();
        lemma_collected_at(rest);
        if let Ok(values) = collected(items) {
            assert forall|i: int| 0 <= i < items.len() implies #[trigger] items[i] == Ok::<
                T,
                Seq<char>,
            >(values[i]) by {
                if i < rest.len() {
                    assert(rest[i] == items[i]);
                }
            }
        }
    }
}

/// When all results are good, each value is that of its result; otherwise one is an error.
pub proof fn lemma_collected_all<T>(items: Seq<Result<T, Seq<char>>>)
    ensures
        collected(items) matches Ok(values) ==> forall|i: int|
            0 <= i < items.len() ==> (#[trigger] items[i] matches Ok(v) && values.contains(v)),
        collected(items) is Err ==> exists|i: int|
            0 <= i < items.len() && (#[trigger] items[i]) is Err,
    decreases items.len(),
{
    if items.len() > 0 {
        let rest = items.drop_last();
        lemma_collected_all(rest);
        if let Ok(values) = collected(items) {
            let before = collected(rest)->Ok_0;
            assert forall|i: int| 0 <= i < items.len() implies (#[trigger] items[i] matches Ok(v)
                && values.contains(v)) by {
                if i < rest.len() {
                    assert(rest[i] == items[i]);
                    let v = items[i]->Ok_0;
                    let j = choose|j: int| 0 <= j < before.len() && before[j] == v;
                    assert(values[j] == v);
                } else {
                    assert(values[before.len() as int] == items[i]->Ok_0);
                }
            }
        } else if collected(rest) is Err {
            let i = choose|i: int| 0 <= i < rest.len() && (#[trigger] rest[i]) is Err;
            assert(items[i] is Err);
        } else {
            assert(items[items.len() - 1] is Err);
        }
    }
}

/// What is queued for admission in a store is claimed as it was queued, when the claim is not
/// cut short; a claim fails only where some queued row does not say what it should.
pub proof fn law_claim_gives_back_what_is_queued(m: Rows, c: CanonicalInView, limit: usize)
    requires
        canonical_in_fits(c),
        keys_of(m, CANONICAL_IN).finite(),
        keys_of(m, CANONICAL_IN).len() <= limit,
        m.contains_key((CANONICAL_IN, canonical_in_row_of(c).key)),
        m[(CANONICAL_IN, canonical_in_row_of(c).key)] == canonical_in_row_of(c).value,
    ensures
        claimed_canonical_in(m, limit) matches Ok(v) ==> v.contains(
            (canonical_in_row_of(c).key, c),
        ),
        claimed_canonical_in(m, limit) is Err ==> exists|k: Seq<u8>|
            m.contains_key((CANONICAL_IN, k)) && decoded_canonical_in(
                #[trigger] m[(CANONICAL_IN, k)],
            ) is Err,
{
    let row = canonical_in_row_of(c);
    let listed = rows_listed(m, CANONICAL_IN, Seq::empty(), limit);
    let items = listed.map_values(
        |row: (Seq<u8>, Seq<u8>)|
            match decoded_canonical_in(row.1) {
                Ok(c) => Ok((row.0, c)),
                Err(e) => Err(module_error_text(e)),
            },
    );
    law_canonical_in_round_trip(c);
    lemma_rows_listed(m, CANONICAL_IN, limit);
    lemma_collected_all(items);
    assert(listed.contains((row.key, row.value)));
    let i = choose|i: int| 0 <= i < listed.len() && listed[i] == (row.key, row.value);
    assert(items[i] == Ok::<(Seq<u8>, CanonicalInView), Seq<char>>((row.key, c)));
    if collected(items) is Err {
        let j = choose|j: int| 0 <= j < items.len() && (#[trigger] items[j]) is Err;
        assert(listed.contains((listed[j].0, listed[j].1)));
        assert(decoded_canonical_in(m[(CANONICAL_IN, listed[j].0)]) is Err);
    }
}

/// Different canonical bytes are queued as different values.
pub proof fn law_queued_values_tell_events_apart(c: CanonicalInView, d: CanonicalInView)
    requires
        c.canonical_bytes.len() <= u64::MAX,
        d.canonical_bytes.len() <= u64::MAX,
        c.canonical_bytes != d.canonical_bytes,
    ensures
        encoded_canonical_in(c) != encoded_canonical_in(d),
{
    let what = "canonical in row"@;
    let t = encoded_receive(c.receive) + encoded_provenance(c.provenance);
    let u = encoded_receive(d.receive) + encoded_provenance(d.provenance);
    lemma_take_sized(c.canonical_bytes, t, what);
    lemma_take_sized(d.canonical_bytes, u, what);
    assert(encoded_canonical_in(c) =~= sized(c.canonical_bytes) + t);
    assert(encoded_canonical_in(d) =~= sized(d.canonical_bytes) + u);
}

// ---------------------------------------------------------------------------
// Receive context
// ---------------------------------------------------------------------------

/// What a receive context row says, or what is wrong with it.
pub open spec fn decoded_receive_context(value: Seq<u8>) -> Result<
    Option<ReceiveView>,
    Seq<char>,
> {
    let what = "event receive context row"@;
    match decoded_receive(value, what) {
        Err(e) => Err(module_error_text(e)),
        Ok((m, rest)) => if rest.len() > 0 {
            Err(module_error_text(trailing_text(what)))
        } else {
            Ok(m)
        },
    }
}

/// Remember how an event was received.
pub fn event_receive_context_row(event_id: EventId, receive: ReceiveMetadata) -> (r: TableRow)
    ensures
        r@ == (RowView {
            table: EVENT_RECEIVE_CONTEXT,
            key: event_id@,
            value: encoded_receive(Some(receive@)),
        }),
{
    let mut value: Vec<u8> = Vec::new();
    encode_receive(&mut value, &Some(receive));
    assert(value@ =~= encoded_receive(Some(receive@)));
    TableRow { table: EVENT_RECEIVE_CONTEXT, key: id_bytes(&event_id), value }
}

/// How an event was received, when that was remembered.
pub fn event_receive_context(store: &Store, event_id: &EventId) -> (r: Result<
    Option<ReceiveMetadata>,
    String,
>)
    requires
        store.wf(),
    ensures
        if store@.rows.contains_key((EVENT_RECEIVE_CONTEXT, event_id@)) {
            match decoded_receive_context(store@.rows[(EVENT_RECEIVE_CONTEXT, event_id@)]) {
                Ok(m) => r matches Ok(x) && receive_view(x) == m,
                Err(e) => r matches Err(x) && x@ == e,
            }
        } else {
            r matches Ok(x) && x is None
        },
{
    let value = match store.tables.table_row(EVENT_RECEIVE_CONTEXT, event_id.as_slice()) {
        Some(value) => value,
        None => {
            return Ok(None);
        },
    };
    let mut reader = Reader::new(value.as_slice(), "event receive context row");
    let receive = match decode_receive(&mut reader) {
        Ok(m) => m,
        Err(e) => {
            return Err(module_error(e));
        },
    };
    match reader.finish() {
        Ok(_) => Ok(receive),
        Err(e) => Err(module_error(e)),
    }
}

/// Forget how an event was received; tells how many rows went away.
pub fn delete_event_receive_context_in_tx(store: &mut Store, event_id: &EventId) -> (n: usize)
    requires
        old(store).wf(),
    ensures
        final(store).wf(),
        n == (if old(store)@.rows.contains_key((EVENT_RECEIVE_CONTEXT, event_id@)) {
            1int
        } else {
            0
        }),
        final(store)@.rows == old(store)@.rows.remove((EVENT_RECEIVE_CONTEXT, event_id@)),
        final(store)@.events == old(store)@.events,
{
    if store.tables.delete_row(EVENT_RECEIVE_CONTEXT, event_id.as_slice()) {
        1
    } else {
        0
    }
}

/// A remembered receive context is read back as it was.
pub proof fn law_receive_context_round_trip(m: ReceiveView)
    requires
        origin_fits(m.origin),
    ensures
        decoded_receive_context(encoded_receive(Some(m))) == Ok::<Option<ReceiveView>, Seq<char>>(
            Some(m),
        ),
{
    let empty = Seq::<u8>::empty();
    assert(encoded_receive(Some(m)) + empty =~= encoded_receive(Some(m)));
    lemma_receive_round_trip(Some(m), empty, "event receive context row"@);
}

// ---------------------------------------------------------------------------
// Recently valid events
// ---------------------------------------------------------------------------

/// The id that a value holds, or what is wrong with it.
pub open spec fn decoded_id(value: Seq<u8>) -> Result<EventId, Seq<char>> {
    if value.len() == 32 {
        Ok(id_with(value))
    } else {
        Err(module_error_text("expected 32-byte event id, got "@ + decimal(value.len())))
    }
}

fn vec_to_id(bytes: &Vec<u8>) -> (r: Result<EventId, String>)
    ensures
        match decoded_id(bytes@) {
            Ok(id) => r matches Ok(x) && x == id,
            Err(e) => r matches Err(x) && x@ == e,
        },
{
    if bytes.len() == 32 {
        let id = id_at(bytes.as_slice(), 0);
        assert(bytes@.subrange(0, 32) =~= bytes@);
        proof {
            lemma_id_with(id);
        }
        Ok(id)
    } else {
        Err(module_error(numbered("expected 32-byte event id, got ", bytes.len() as u64)))
    }
}

/// The row that queues an applied event for its dependents.
pub open spec fn recently_valid_row_of(event_id: EventId) -> RowView {
    RowView { table: RECENTLY_VALID_EVENTS, key: event_id@, value: event_id@ }
}

/// Queue an applied event for its dependents.
pub fn recently_valid_event_row(event_id: EventId) -> (r: TableRow)
    ensures
        r@ == recently_valid_row_of(event_id),
{
    TableRow {
        table: RECENTLY_VALID_EVENTS,
        key: id_bytes(&event_id),
        value: id_bytes(&event_id),
    }
}

/// What one queued applied event says.
pub open spec fn recently_valid_of(row: (Seq<u8>, Seq<u8>)) -> Result<
    (Seq<u8>, EventId),
    Seq<char>,
> {
    match decoded_id(row.1) {
        Ok(id) => Ok((row.0, id)),
        Err(e) => Err(e),
    }
}

/// What the first queued applied events say, or what is wrong with one of them.
pub open spec fn claimed_recently_valid(m: Rows, limit: usize) -> Result<
    Seq<(Seq<u8>, EventId)>,
    Seq<char>,
> {
    collected(
        rows_listed(m, RECENTLY_VALID_EVENTS, Seq::empty(), limit).map_values(
            |row: (Seq<u8>, Seq<u8>)| recently_valid_of(row),
        ),
    )
}

/// What claimed events say.
pub open spec fn recently_valid_views(rows: Seq<RecentlyValidEvent>) -> Seq<(Seq<u8>, EventId)> {
    rows.map_values(|r: RecentlyValidEvent| (r.key@, r.event_id))
}

/// Read the first applied events that are queued for their dependents, in key order.
pub fn claim_recently_valid_events(store: &Store, limit: usize) -> (r: Result<
    Vec<RecentlyValidEvent>,
    String,
>)
    requires
        store.wf(),
    ensures
        match claimed_recently_valid(store@.rows, limit) {
            Ok(v) => r matches Ok(rows) && recently_valid_views(rows@) == v,
            Err(e) => r matches Err(x) && x@ == e,
        },
{
    let empty: Vec<u8> = Vec::new();
    let rows = store.tables.table_rows_with_key_prefix(
        RECENTLY_VALID_EVENTS,
        empty.as_slice(),
        limit,
    );
    let ghost listed = rows_listed(store@.rows, RECENTLY_VALID_EVENTS, Seq::empty(), limit);
    let ghost items = listed.map_values(|row: (Seq<u8>, Seq<u8>)| recently_valid_of(row));
    proof {
        assert(empty@ =~= Seq::<u8>::empty());
        assert(items.len() == rows@.len());
    }
    let mut out: Vec<RecentlyValidEvent> = Vec::new();
    let mut i: usize = 0;
    assert(recently_valid_views(out@) =~= Seq::empty());
    while i < rows.len()
        invariant
            i <= rows@.len(),
            pair_views(rows@) == listed,
            items == listed.map_values(|row: (Seq<u8>, Seq<u8>)| recently_valid_of(row)),
            items.len() == rows@.len(),
            claimed_recently_valid(store@.rows, limit) == collected(items),
            collected(items.take(i as int)) == Ok::<Seq<(Seq<u8>, EventId)>, Seq<char>>(
                recently_valid_views(out@),
            ),
        decreases rows.len() - i,
    {
        proof {
            assert(pair_views(rows@)[i as int] == (rows@[i as int].0@, rows@[i as int].1@));
            lemma_collected_step(items, i as int);
        }
        match vec_to_id(&rows[i].1) {
            Ok(event_id) => {
                let ghost before = out@;
                let key = copy_bytes(rows[i].0.as_slice());
                out.push(RecentlyValidEvent { key, event_id });
                assert(recently_valid_views(out@) =~= recently_valid_views(before).push(
                    (key@, event_id),
                ));
            },
            Err(e) => {
                return Err(e);
            },
        }
        i = i + 1;
    }
    assert(items.take(i as int) =~= items);
    Ok(out)
}

/// A queued applied event is claimed as it was queued.
pub proof fn law_recently_valid_round_trip(event_id: EventId)
    ensures
        ({
            let row = recently_valid_row_of(event_id);
            recently_valid_of((row.key, row.value)) == Ok::<(Seq<u8>, EventId), Seq<char>>(
                (event_id@, event_id),
            )
        }),
{
    lemma_id_with(event_id);
}

// ---------------------------------------------------------------------------
// Applied shared events
// ---------------------------------------------------------------------------

/// The value of an index row: a flag and the workspace, or zeros.
pub open spec fn workspace_index_value(workspace_id: Option<EventId>) -> Seq<u8> {
    match workspace_id {
        Some(id) => seq![1u8] + id@,
        None => seq![0u8] + zero_bytes(),
    }
}

/// The workspace that an index value holds, or what is wrong with it.
pub open spec fn decoded_workspace_index_value(value: Seq<u8>) -> Result<
    Option<EventId>,
    Seq<char>,
> {
    if value.len() != 33 {
        Err(
            module_error_text(
                "workspace index value should be 33 bytes, got "@ + decimal(value.len()),
            ),
        )
    } else if value[0] == 0 {
        Ok(None)
    } else if value[0] == 1 {
        Ok(Some(id_with(value.skip(1))))
    } else {
        Err(module_error_text("invalid optional id flag "@ + decimal(value[0] as nat)))
    }
}

fn encode_workspace_index_value(workspace_id: &Option<EventId>) -> (r: Vec<u8>)
    ensures
        r@ == workspace_index_value(*workspace_id),
{
    let mut out: Vec<u8> = Vec::new();
    match workspace_id {
        Some(id) => {
            put_u8(&mut out, 1);
            put_id(&mut out, id);
        },
        None => {
            put_u8(&mut out, 0);
            put_id(&mut out, &zero_id());
        },
    }
    assert(out@ =~= workspace_index_value(*workspace_id));
    out
}

fn decode_workspace_index_value(value: &Vec<u8>) -> (r: Result<Option<EventId>, String>)
    ensures
        match decoded_workspace_index_value(value@) {
            Ok(w) => r matches Ok(x) && x == w,
            Err(e) => r matches Err(x) && x@ == e,
        },
{
    if value.len() != 33 {
        return Err(
            module_error(
                numbered("workspace index value should be 33 bytes, got ", value.len() as u64),
            ),
        );
    }
    match value[0] {
        0 => Ok(None),
        1 => {
            let id = id_at(value.as_slice(), 1);
            assert(value@.subrange(1, 33) =~= value@.skip(1));
            proof {
                lemma_id_with(id);
            }
            Ok(Some(id))
        },
        other => Err(module_error(numbered("invalid optional id flag ", other as u64))),
    }
}

/// The row that queues an applied shared event for the sync index.
pub open spec fn applied_shared_row_of(entry: EventIndexEntry) -> RowView {
    RowView {
        table: APPLIED_SHARED_EVENTS,
        key: be64(entry.timestamp) + entry.event_id@,
        value: workspace_index_value(entry.workspace_id),
    }
}

/// Queue an applied shared event for the sync index.
pub fn applied_shared_event_row(entry: EventIndexEntry) -> (r: TableRow)
    ensures
        r@ == applied_shared_row_of(entry),
{
    let mut key: Vec<u8> = Vec::new();
    put_be64(&mut key, entry.timestamp);
    put_id(&mut key, &entry.event_id);
    assert(key@ =~= be64(entry.timestamp) + entry.event_id@);
    TableRow {
        table: APPLIED_SHARED_EVENTS,
        key,
        value: encode_workspace_index_value(&entry.workspace_id),
    }
}

/// What one queued shared event says, or what is wrong with it.
pub open spec fn applied_shared_of(row: (Seq<u8>, Seq<u8>)) -> Result<
    (Seq<u8>, EventIndexEntry),
    Seq<char>,
> {
    if row.0.len() != 40 {
        Err(
            module_error_text("timestamp key should be 40 bytes, got "@ + decimal(row.0.len())),
        )
    } else {
        match decoded_workspace_index_value(row.1) {
            Err(e) => Err(e),
            Ok(workspace_id) => Ok(
                (
                    row.0,
                    EventIndexEntry {
                        event_id: id_with(row.0.skip(8)),
                        timestamp: from_be64(row.0.take(8)),
                        workspace_id,
                    },
                ),
            ),
        }
    }
}

fn decode_applied_shared(key: &Vec<u8>, value: &Vec<u8>) -> (r: Result<AppliedSharedEvent, String>)
    ensures
        match applied_shared_of((key@, value@)) {
            Ok(v) => r matches Ok(x) && (x.key@, x.entry) == v,
            Err(e) => r matches Err(x) && x@ == e,
        },
{
    if key.len() != 40 {
        return Err(
            module_error(numbered("timestamp key should be 40 bytes, got ", key.len() as u64)),
        );
    }
    let timestamp = be64_at(key.as_slice(), 0);
    let event_id = id_at(key.as_slice(), 8);
    proof {
        assert(key@.subrange(0, 8) =~= key@.take(8));
        assert(key@.subrange(8, 40) =~= key@.skip(8));
        lemma_id_with(event_id);
    }
    match decode_workspace_index_value(value) {
        Ok(workspace_id) => Ok(
            AppliedSharedEvent {
                key: copy_bytes(key.as_slice()),
                entry: EventIndexEntry { event_id, timestamp, workspace_id },
            },
        ),
        Err(e) => Err(e),
    }
}

/// What the first queued shared events say, or what is wrong with one of them.
pub open spec fn claimed_applied_shared(m: Rows, limit: usize) -> Result<
    Seq<(Seq<u8>, EventIndexEntry)>,
    Seq<char>,
> {
    collected(
        rows_listed(m, APPLIED_SHARED_EVENTS, Seq::empty(), limit).map_values(
            |row: (Seq<u8>, Seq<u8>)| applied_shared_of(row),
        ),
    )
}

/// What claimed events say.
pub open spec fn applied_shared_views(rows: Seq<AppliedSharedEvent>) -> Seq<
    (Seq<u8>, EventIndexEntry),
> {
    rows.map_values(|r: AppliedSharedEvent| (r.key@, r.entry))
}

/// Read the first shared events that are queued for the sync index, in the order of their
/// timestamps and then ids.
pub fn claim_applied_shared_events(store: &Store, limit: usize) -> (r: Result<
    Vec<AppliedSharedEvent>,
    String,
>)
    requires
        store.wf(),
    ensures
        match claimed_applied_shared(store@.rows, limit) {
            Ok(v) => r matches Ok(rows) && applied_shared_views(rows@) == v,
            Err(e) => r matches Err(x) && x@ == e,
        },
        r matches Ok(rows) ==> forall|i: int|
            0 <= i < rows@.len() ==> keys_of(store@.rows, APPLIED_SHARED_EVENTS).contains(
                (#[trigger] rows@[i]).key@,
            ),
{
    let empty: Vec<u8> = Vec::new();
    let rows = store.tables.table_rows_with_key_prefix(
        APPLIED_SHARED_EVENTS,
        empty.as_slice(),
        limit,
    );
    let ghost listed = rows_listed(store@.rows, APPLIED_SHARED_EVENTS, Seq::empty(), limit);
    let ghost items = listed.map_values(|row: (Seq<u8>, Seq<u8>)| applied_shared_of(row));
    proof {
        assert(empty@ =~= Seq::<u8>::empty());
        assert(items.len() == rows@.len());
    }
    let ghost all = listing(with_prefix(keys_of(store@.rows, APPLIED_SHARED_EVENTS), empty@));
    let mut out: Vec<AppliedSharedEvent> = Vec::new();
    let mut i: usize = 0;
    assert(applied_shared_views(out@) =~= Seq::empty());
    while i < rows.len()
        invariant
            i <= rows@.len(),
            empty@ == Seq::<u8>::empty(),
            all == listing(with_prefix(keys_of(store@.rows, APPLIED_SHARED_EVENTS), empty@)),
            is_listing(all, with_prefix(keys_of(store@.rows, APPLIED_SHARED_EVENTS), empty@)),
            listed == rows_listed(store@.rows, APPLIED_SHARED_EVENTS, empty@, limit),
            forall|j: int|
                0 <= j < out@.len() ==> keys_of(store@.rows, APPLIED_SHARED_EVENTS).contains(
                    (#[trigger] out@[j]).key@,
                ),
            pair_views(rows@) == listed,
            items == listed.map_values(|row: (Seq<u8>, Seq<u8>)| applied_shared_of(row)),
            items.len() == rows@.len(),
            claimed_applied_shared(store@.rows, limit) == collected(items),
            collected(items.take(i as int)) == Ok::<Seq<(Seq<u8>, EventIndexEntry)>, Seq<char>>(
                applied_shared_views(out@),
            ),
        decreases rows.len() - i,
    {
        proof {
            assert(pair_views(rows@)[i as int] == (rows@[i as int].0@, rows@[i as int].1@));
            lemma_collected_step(items, i as int);
        }
        match decode_applied_shared(&rows[i].0, &rows[i].1) {
            Ok(event) => {
                let ghost before = out@;
                out.push(event);
                proof {
                    assert(all[i as int] == rows@[i as int].0@);
                    assert(all.contains(all[i as int]));
                    assert(with_prefix(
                        keys_of(store@.rows, APPLIED_SHARED_EVENTS),
                        empty@,
                    ).contains(event.key@));
                    assert forall|j: int| 0 <= j < out@.len() implies keys_of(
                        store@.rows,
                        APPLIED_SHARED_EVENTS,
                    ).contains((#[trigger] out@[j]).key@) by {
                        if j < before.len() {
                            assert(out@[j] == before[j]);
                        }
                    }
                }
                assert(applied_shared_views(out@) =~= applied_shared_views(before).push(
                    (event.key@, event.entry),
                ));
            },
            Err(e) => {
                return Err(e);
            },
        }
        i = i + 1;
    }
    assert(items.take(i as int) =~= items);
    Ok(out)
}

/// A queued shared event is claimed as it was queued.
pub proof fn law_applied_shared_round_trip(entry: EventIndexEntry)
    ensures
        ({
            let row = applied_shared_row_of(entry);
            applied_shared_of((row.key, row.value)) == Ok::<
                (Seq<u8>, EventIndexEntry),
                Seq<char>,
            >((row.key, entry))
        }),
{
    let row = applied_shared_row_of(entry);
    lemma_be64_round_trip(entry.timestamp);
    assert(row.key.take(8) =~= be64(entry.timestamp));
    assert(row.key.skip(8) =~= entry.event_id@);
    lemma_id_with(entry.event_id);
    if let Some(w) = entry.workspace_id {
        lemma_id_with(w);
        assert(row.value.skip(1) =~= w@);
    }
}

/// Applied shared events are queued in the order of their timestamps, and of their ids where
/// those are the same.
pub proof fn law_applied_shared_rows_are_in_time_order(a: EventIndexEntry, b: EventIndexEntry)
    ensures
        lex_lt(applied_shared_row_of(a).key, applied_shared_row_of(b).key) <==> a.timestamp
            < b.timestamp || (a.timestamp == b.timestamp && lex_lt(a.event_id@, b.event_id@)),
{
    if a.timestamp < b.timestamp {
        lemma_be64_ordered(a.timestamp, b.timestamp, a.event_id@, b.event_id@);
    } else if b.timestamp < a.timestamp {
        let (k, l) = (applied_shared_row_of(a).key, applied_shared_row_of(b).key);
        lemma_be64_ordered(b.timestamp, a.timestamp, b.event_id@, a.event_id@);
        if lex_lt(k, l) {
            lemma_lex_transitive(k, l, k);
            lemma_lex_irreflexive(k);
        }
    } else {
        lemma_lex_behind(be64(a.timestamp), a.event_id@, b.event_id@);
    }
}

/// An applied shared event that is queued in a store is claimed as it was queued, when the
/// claim is not cut short.
pub proof fn law_claim_gives_back_a_shared_event(m: Rows, entry: EventIndexEntry, limit: usize)
    requires
        keys_of(m, APPLIED_SHARED_EVENTS).finite(),
        keys_of(m, APPLIED_SHARED_EVENTS).len() <= limit,
        m.contains_key((APPLIED_SHARED_EVENTS, applied_shared_row_of(entry).key)),
        m[(APPLIED_SHARED_EVENTS, applied_shared_row_of(entry).key)] == applied_shared_row_of(
            entry,
        ).value,
    ensures
        claimed_applied_shared(m, limit) matches Ok(v) ==> v.contains(
            (applied_shared_row_of(entry).key, entry),
        ),
        claimed_applied_shared(m, limit) is Err ==> exists|k: Seq<u8>|
            m.contains_key((APPLIED_SHARED_EVENTS, k)) && #[trigger] applied_shared_of(
                (k, m[(APPLIED_SHARED_EVENTS, k)]),
            ) is Err,
{
    let row = applied_shared_row_of(entry);
    let listed = rows_listed(m, APPLIED_SHARED_EVENTS, Seq::empty(), limit);
    let items = listed.map_values(|row: (Seq<u8>, Seq<u8>)| applied_shared_of(row));
    law_applied_shared_round_trip(entry);
    lemma_rows_listed(m, APPLIED_SHARED_EVENTS, limit);
    lemma_collected_all(items);
    assert(listed.contains((row.key, row.value)));
    let i = choose|i: int| 0 <= i < listed.len() && listed[i] == (row.key, row.value);
    assert(items[i] == applied_shared_of((row.key, row.value)));
    if collected(items) is Err {
        let j = choose|j: int| 0 <= j < items.len() && (#[trigger] items[j]) is Err;
        assert(listed.contains(listed[j]));
        assert(applied_shared_of((listed[j].0, m[(APPLIED_SHARED_EVENTS, listed[j].0)])) is Err);
    }
}

// ---------------------------------------------------------------------------
// Sync in
// ---------------------------------------------------------------------------

/// The row that queues a sync event.
pub open spec fn sync_in_row_of(connection_id: EventId, event_id: EventId, bytes: Seq<u8>) -> RowView {
    RowView { table: SYNC_IN_EVENTS, key: connection_id@ + event_id@, value: bytes }
}

/// Queue a sync event that arrived over a connection.
pub fn sync_in_event_row(connection_id: EventId, event_id: EventId, event_bytes: Vec<u8>) -> (r:
    TableRow)
    ensures
        r@ == sync_in_row_of(connection_id, event_id, event_bytes@),
{
    TableRow {
        table: SYNC_IN_EVENTS,
        key: id_pair(&connection_id, &event_id),
        value: event_bytes,
    }
}

/// The prefix of the keys of the sync events of a connection.
pub fn sync_in_event_prefix(connection_id: EventId) -> (r: Vec<u8>)
    ensures
        r@ == connection_id@,
{
    id_bytes(&connection_id)
}

/// What a queued sync event says, or what is wrong with it.
pub open spec fn sync_in_of(row: (Seq<u8>, Seq<u8>)) -> Result<
    (EventId, EventId, Seq<u8>),
    Seq<char>,
> {
    if row.0.len() != 64 {
        Err("sync in event key must be 64 bytes"@)
    } else {
        Ok((id_with(row.0.take(32)), id_with(row.0.skip(32)), row.1))
    }
}

/// Read one queued sync event.
pub fn decode_sync_in_event(key: Vec<u8>, event_bytes: Vec<u8>) -> (r: Result<SyncInEvent, String>)
    ensures
        match sync_in_of((key@, event_bytes@)) {
            Ok(v) => r matches Ok(x) && (x.connection_id, x.event_id, x.event_bytes@) == v,
            Err(e) => r matches Err(x) && x@ == e,
        },
{
    if key.len() != 64 {
        return Err(text("sync in event key must be 64 bytes"));
    }
    let connection_id = id_at(key.as_slice(), 0);
    let event_id = id_at(key.as_slice(), 32);
    proof {
        assert(key@.subrange(0, 32) =~= key@.take(32));
        assert(key@.subrange(32, 64) =~= key@.skip(32));
        lemma_id_with(connection_id);
        lemma_id_with(event_id);
    }
    Ok(SyncInEvent { connection_id, event_id, event_bytes })
}

/// What the first queued sync events under a prefix say, or what is wrong with one of them.
pub open spec fn claimed_sync_in(m: Rows, prefix: Seq<u8>, limit: usize) -> Result<
    Seq<(EventId, EventId, Seq<u8>)>,
    Seq<char>,
> {
    collected(
        rows_listed(m, SYNC_IN_EVENTS, prefix, limit).map_values(
            |row: (Seq<u8>, Seq<u8>)| sync_in_error(sync_in_of(row)),
        ),
    )
}

/// A failure as the table reports it.
pub open spec fn sync_in_error(r: Result<(EventId, EventId, Seq<u8>), Seq<char>>) -> Result<
    (EventId, EventId, Seq<u8>),
    Seq<char>,
> {
    match r {
        Ok(v) => Ok(v),
        Err(e) => Err(module_error_text(e)),
    }
}

/// What claimed events say.
pub open spec fn sync_in_views(rows: Seq<SyncInEvent>) -> Seq<(EventId, EventId, Seq<u8>)> {
    rows.map_values(|r: SyncInEvent| (r.connection_id, r.event_id, r.event_bytes@))
}

fn claim_sync_in_under(store: &Store, prefix: &Vec<u8>, limit: usize) -> (r: Result<
    Vec<SyncInEvent>,
    String,
>)
    requires
        store.wf(),
    ensures
        match claimed_sync_in(store@.rows, prefix@, limit) {
            Ok(v) => r matches Ok(rows) && sync_in_views(rows@) == v,
            Err(e) => r matches Err(x) && x@ == e,
        },
{
    let rows = store.tables.table_rows_with_key_prefix(SYNC_IN_EVENTS, prefix.as_slice(), limit);
    let ghost listed = rows_listed(store@.rows, SYNC_IN_EVENTS, prefix@, limit);
    let ghost items = listed.map_values(
        |row: (Seq<u8>, Seq<u8>)| sync_in_error(sync_in_of(row)),
    );
    assert(items.len() == rows@.len());
    let mut out: Vec<SyncInEvent> = Vec::new();
    let mut i: usize = 0;
    assert(sync_in_views(out@) =~= Seq::empty());
    while i < rows.len()
        invariant
            i <= rows@.len(),
            pair_views(rows@) == listed,
            items == listed.map_values(
                |row: (Seq<u8>, Seq<u8>)| sync_in_error(sync_in_of(row)),
            ),
            items.len() == rows@.len(),
            claimed_sync_in(store@.rows, prefix@, limit) == collected(items),
            collected(items.take(i as int)) == Ok::<Seq<(EventId, EventId, Seq<u8>)>, Seq<char>>(
                sync_in_views(out@),
            ),
        decreases rows.len() - i,
    {
        proof {
            assert(pair_views(rows@)[i as int] == (rows@[i as int].0@, rows@[i as int].1@));
            lemma_collected_step(items, i as int);
        }
        let key = copy_bytes(rows[i].0.as_slice());
        let value = copy_bytes(rows[i].1.as_slice());
        match decode_sync_in_event(key, value) {
            Ok(event) => {
                let ghost before = out@;
                out.push(event);
                assert(sync_in_views(out@) =~= sync_in_views(before).push(
                    (event.connection_id, event.event_id, event.event_bytes@),
                ));
            },
            Err(e) => {
                return Err(module_error(e));
            },
        }
        i = i + 1;
    }
    assert(items.take(i as int) =~= items);
    Ok(out)
}

/// Read the first queued sync events, in key order.
pub fn claim_sync_in_events(store: &Store, limit: usize) -> (r: Result<Vec<SyncInEvent>, String>)
    requires
        store.wf(),
    ensures
        match claimed_sync_in(store@.rows, Seq::empty(), limit) {
            Ok(v) => r matches Ok(rows) && sync_in_views(rows@) == v,
            Err(e) => r matches Err(x) && x@ == e,
        },
{
    let empty: Vec<u8> = Vec::new();
    assert(empty@ =~= Seq::<u8>::empty());
    claim_sync_in_under(store, &empty, limit)
}

/// Read the first queued sync events of a connection, in key order.
pub fn claim_sync_in_events_for_connection(
    store: &Store,
    connection_id: EventId,
    limit: usize,
) -> (r: Result<Vec<SyncInEvent>, String>)
    requires
        store.wf(),
    ensures
        match claimed_sync_in(store@.rows, connection_id@, limit) {
            Ok(v) => r matches Ok(rows) && sync_in_views(rows@) == v,
            Err(e) => r matches Err(x) && x@ == e,
        },
{
    claim_sync_in_under(store, &sync_in_event_prefix(connection_id), limit)
}

/// A queued sync event is claimed as it was queued.
pub proof fn law_sync_in_round_trip(connection_id: EventId, event_id: EventId, bytes: Seq<u8>)
    ensures
        ({
            let row = sync_in_row_of(connection_id, event_id, bytes);
            sync_in_of((row.key, row.value)) == Ok::<(EventId, EventId, Seq<u8>), Seq<char>>(
                (connection_id, event_id, bytes),
            )
        }),
{
    let key = connection_id@ + event_id@;
    assert(key.take(32) =~= connection_id@);
    assert(key.skip(32) =~= event_id@);
    lemma_id_with(connection_id);
    lemma_id_with(event_id);
}

// ---------------------------------------------------------------------------
// Transit out
// ---------------------------------------------------------------------------

/// The row that queues an event for sending.
pub open spec fn transit_out_row_of(connection_id: EventId, event_id: EventId) -> RowView {
    RowView { table: TRANSIT_OUT, key: connection_id@ + event_id@, value: Seq::empty() }
}

/// Queue an event for sending over a connection.
pub fn transit_out_row(connection_id: EventId, event_id: EventId) -> (r: TableRow)
    ensures
        r@ == transit_out_row_of(connection_id, event_id),
{
    let value: Vec<u8> = Vec::new();
    assert(value@ =~= Seq::<u8>::empty());
    TableRow { table: TRANSIT_OUT, key: TransitOutKey { connection_id, event_id }.to_bytes(), value }
}

/// The prefix of the keys of the events that wait to be sent over a connection.
pub fn transit_out_prefix(connection_id: EventId) -> (r: Vec<u8>)
    ensures
        r@ == connection_id@,
{
    id_bytes(&connection_id)
}

/// What the key of an event that waits to be sent says, or what is wrong with it.
pub open spec fn transit_out_key_of(bytes: Seq<u8>) -> Result<TransitOutKey, Seq<char>> {
    if bytes.len() != 64 {
        Err("out key must be 64 bytes"@)
    } else {
        Ok(
            TransitOutKey {
                connection_id: id_with(bytes.take(32)),
                event_id: id_with(bytes.skip(32)),
            },
        )
    }
}

/// Read the key of an event that waits to be sent.
pub fn decode_transit_out_key(bytes: &[u8]) -> (r: Result<TransitOutKey, String>)
    ensures
        match transit_out_key_of(bytes@) {
            Ok(k) => r matches Ok(x) && x == k,
            Err(e) => r matches Err(x) && x@ == e,
        },
{
    if bytes.len() != 64 {
        return Err(text("out key must be 64 bytes"));
    }
    let connection_id = id_at(bytes, 0);
    let event_id = id_at(bytes, 32);
    proof {
        assert(bytes@.subrange(0, 32) =~= bytes@.take(32));
        assert(bytes@.subrange(32, 64) =~= bytes@.skip(32));
        lemma_id_with(connection_id);
        lemma_id_with(event_id);
    }
    Ok(TransitOutKey { connection_id, event_id })
}

/// The key of an event that waits to be sent is read back as it was written.
pub proof fn law_transit_out_key_round_trip(k: TransitOutKey)
    ensures
        transit_out_key_of(k.connection_id@ + k.event_id@) == Ok::<TransitOutKey, Seq<char>>(k),
{
    let key = k.connection_id@ + k.event_id@;
    assert(key.take(32) =~= k.connection_id@);
    assert(key.skip(32) =~= k.event_id@);
    lemma_id_with(k.connection_id);
    lemma_id_with(k.event_id);
}

} // verus!
