//! Making connections: sending requests, and answering those of others.
//!
//! A request is sent again and again until a response has made it a connection; then its
//! address becomes the route of the connection. A response is sent once for each pending
//! request; it is created at the first try and reused afterwards. What goes into a frame is
//! found here; the caller does the key agreement, wraps and sends, and tells what came of it.
use vstd::prelude::*;
use crate::bytes::{id_eq, EventId};
use crate::connection_facts::{
    decode_ephemeral_secret, decode_invite_secret, decode_request, decode_response,
    decoded_ephemeral_secret, decoded_invite_secret, decoded_request, decoded_response,
    EphemeralSecretEvent, InviteSecretEvent, RequestEvent, RequestView, ResponseEvent,
};
use crate::connections::{
    addressed_rows, addressed_views, connection_event_bytes, connection_event_of,
    connection_id_for_request, connection_of_request, pending_connection_rows, AddressedId,
};
use crate::endpoints::{local_endpoint, local_endpoint_of, EndpointKeypair};
use crate::events::{proposal_views, AdmitReport, EventRegistry, ProposedEvent};
use crate::recording::{record_events, recorded};
use crate::store::{Store, StoreState};
use crate::tables::{Rows, TableName};
use crate::text::text;
use crate::transit_out::{
    plus, remember_connection_route, route_error, route_error_text, route_remembered,
};

verus! {

/// How many pending requests or responses are looked at in one go.
pub const PENDING_CONNECTION_LIMIT: usize = 64;

/// What connection work counted.
#[derive(Debug, Clone, Copy, PartialEq, Eq)]
pub struct ConnectionReport {
    pub attempts_sent: usize,
    pub attempts_completed: usize,
    pub responses_sent: usize,
    pub failed_attempts: usize,
    pub failed_responses: usize,
    pub sent_events: usize,
}

impl Default for ConnectionReport {
    fn default() -> (r: ConnectionReport)
        ensures
            r == (ConnectionReport {
                attempts_sent: 0,
                attempts_completed: 0,
                responses_sent: 0,
                failed_attempts: 0,
                failed_responses: 0,
                sent_events: 0,
            }),
    {
        ConnectionReport {
            attempts_sent: 0,
            attempts_completed: 0,
            responses_sent: 0,
            failed_attempts: 0,
            failed_responses: 0,
            sent_events: 0,
        }
    }
}

/// Add the counts of one report to another.
pub fn merge_report(total: &mut ConnectionReport, next: &ConnectionReport)
    ensures
        *final(total) == (ConnectionReport {
            attempts_sent: plus(old(total).attempts_sent, next.attempts_sent),
            attempts_completed: plus(old(total).attempts_completed, next.attempts_completed),
            responses_sent: plus(old(total).responses_sent, next.responses_sent),
            failed_attempts: plus(old(total).failed_attempts, next.failed_attempts),
            failed_responses: plus(old(total).failed_responses, next.failed_responses),
            sent_events: plus(old(total).sent_events, next.sent_events),
        }),
{
    total.attempts_sent = total.attempts_sent.saturating_add(next.attempts_sent);
    total.attempts_completed = total.attempts_completed.saturating_add(next.attempts_completed);
    total.responses_sent = total.responses_sent.saturating_add(next.responses_sent);
    total.failed_attempts = total.failed_attempts.saturating_add(next.failed_attempts);
    total.failed_responses = total.failed_responses.saturating_add(next.failed_responses);
    total.sent_events = total.sent_events.saturating_add(next.sent_events);
}

// ---------------------------------------------------------------------------
// Requests
// ---------------------------------------------------------------------------

/// Read the first pending requests.
pub fn pending_connection_attempts(store: &Store) -> (r: Result<Vec<AddressedId>, String>)
    requires
        store.wf(),
    ensures
        match addressed_rows(
            store@.rows,
            TableName::PendingConnectionAttempts,
            PENDING_CONNECTION_LIMIT,
            "event id must be 32 bytes"@,
            Some("pending connection addr is not utf8: "@),
        ) {
            Ok(v) => r matches Ok(x) && addressed_views(x@) == v,
            Err(e) => r matches Err(x) && x@ == e,
        },
{
    pending_connection_rows(store, TableName::PendingConnectionAttempts, PENDING_CONNECTION_LIMIT)
}

/// What a request frame is made of.
#[derive(Debug, Clone, PartialEq, Eq)]
pub struct RequestFrame {
    pub local: EndpointKeypair,
    pub to_endpoint: EventId,
    pub request_bytes: Vec<u8>,
}

/// What a request frame is made of.
pub struct RequestFrameView {
    pub local: EndpointKeypair,
    pub to_endpoint: EventId,
    pub request_bytes: Seq<u8>,
}

impl View for RequestFrame {
    type V = RequestFrameView;

    open spec fn view(&self) -> RequestFrameView {
        RequestFrameView {
            local: self.local,
            to_endpoint: self.to_endpoint,
            request_bytes: self.request_bytes@,
        }
    }
}

/// What the frame of a pending request is made of, or why there is none: the request has to be
/// one of this device.
pub open spec fn request_frame_of(m: Rows, request_id: EventId) -> Result<
    RequestFrameView,
    Seq<char>,
> {
    match connection_event_of(m, request_id) {
        Err(e) => Err(e),
        Ok(bytes) => match decoded_request(bytes) {
            Err(_) => Err("pending connection attempt is not a request event"@),
            Ok(request) => match local_endpoint_of(m) {
                Err(e) => Err(e),
                Ok(local) => if local.endpoint != request.from_endpoint {
                    Err("pending connection request sender is not the local endpoint"@)
                } else {
                    Ok(
                        RequestFrameView {
                            local,
                            to_endpoint: request.to_endpoint,
                            request_bytes: bytes,
                        },
                    )
                },
            },
        },
    }
}

/// Find what the frame of a pending request is made of.
pub fn connection_request_frame(store: &Store, request_id: &EventId) -> (r: Result<
    RequestFrame,
    String,
>)
    requires
        store.wf(),
    ensures
        match request_frame_of(store@.rows, *request_id) {
            Ok(v) => r matches Ok(x) && x@ == v,
            Err(e) => r matches Err(x) && x@ == e,
        },
{
    let request_bytes = match connection_event_bytes(store, request_id) {
        Ok(bytes) => bytes,
        Err(e) => {
            return Err(e);
        },
    };
    let request = match decode_request(request_bytes.as_slice()) {
        Ok(request) => request,
        Err(_) => {
            return Err(text("pending connection attempt is not a request event"));
        },
    };
    let local = match local_endpoint(store) {
        Ok(local) => local,
        Err(e) => {
            return Err(e);
        },
    };
    if !id_eq(&local.endpoint, &request.from_endpoint) {
        return Err(text("pending connection request sender is not the local endpoint"));
    }
    Ok(RequestFrame { local, to_endpoint: request.to_endpoint, request_bytes })
}

/// What is to be done about a pending request.
#[derive(Debug, Clone, PartialEq, Eq)]
pub enum AttemptStep {
    /// Nothing more: a response has made it a connection.
    Completed,
    /// Send it.
    Send { frame: RequestFrame },
    /// Nothing for now: it cannot be put into a frame.
    Unprepared { cause: String },
}

/// The rows after a request has become a connection: its address is the route, and it is no
/// longer pending.
pub open spec fn attempt_completed(
    m: Rows,
    request_id: EventId,
    connection_id: EventId,
    addr: Seq<u8>,
) -> Rows {
    route_remembered(m, connection_id, addr).remove(
        (TableName::PendingConnectionAttempts, request_id@),
    )
}

/// Find what is to be done about a pending request. One that has become a connection is
/// completed at once.
pub fn step_attempt(store: &mut Store, attempt: &AddressedId, report: &mut ConnectionReport) -> (r:
    Result<AttemptStep, String>)
    requires
        old(store).wf(),
    ensures
        final(store).wf(),
        final(store)@.events == old(store)@.events,
        match connection_of_request(old(store)@.rows, attempt.id) {
            Err(e) => {
                &&& r matches Err(x) && x@ == e
                &&& final(store)@ == old(store)@
                &&& *final(report) == *old(report)
            },
            Ok(Some(connection_id)) => {
                &&& r == Ok::<AttemptStep, String>(AttemptStep::Completed)
                &&& final(store)@.rows == attempt_completed(
                    old(store)@.rows,
                    attempt.id,
                    connection_id,
                    attempt.addr@,
                )
                &&& *final(report) == (ConnectionReport {
                    attempts_completed: plus(old(report).attempts_completed, 1),
                    ..*old(report)
                })
            },
            Ok(None) => {
                &&& final(store)@ == old(store)@
                &&& *final(report) == *old(report)
                &&& match request_frame_of(old(store)@.rows, attempt.id) {
                    Ok(v) => r matches Ok(AttemptStep::Send { frame }) && frame@ == v,
                    Err(e) => r matches Ok(AttemptStep::Unprepared { cause }) && cause@ == e,
                }
            },
        },
{
    match connection_id_for_request(store, &attempt.id) {
        Err(e) => Err(e),
        Ok(Some(connection_id)) => {
            remember_connection_route(store, &connection_id, attempt.addr.as_slice());
            let _ = store.tables.delete_row(
                TableName::PendingConnectionAttempts,
                attempt.id.as_slice(),
            );
            report.attempts_completed = report.attempts_completed.saturating_add(1);
            Ok(AttemptStep::Completed)
        },
        Ok(None) => match connection_request_frame(store, &attempt.id) {
            Ok(frame) => Ok(AttemptStep::Send { frame }),
            Err(cause) => Ok(AttemptStep::Unprepared { cause }),
        },
    }
}

/// What came of sending a frame to an address.
#[derive(Debug, Clone, PartialEq, Eq)]
pub enum FrameOutcome {
    /// It could not be put together.
    Unprepared { cause: String },
    /// It went out.
    Sent { sent_events: usize },
    /// It did not go out.
    Unsent { cause: String },
}

/// Count what came of sending a request. A failure is counted, or returned where the caller
/// asked for that; the request stays pending either way.
pub fn note_attempt(
    report: &mut ConnectionReport,
    outcome: FrameOutcome,
    addr: &str,
    fail_on_route_error: bool,
) -> (r: Result<(), String>)
    ensures
        match outcome {
            FrameOutcome::Sent { sent_events } => {
                &&& r is Ok
                &&& *final(report) == (ConnectionReport {
                    attempts_sent: plus(old(report).attempts_sent, 1),
                    sent_events: plus(old(report).sent_events, sent_events),
                    ..*old(report)
                })
            },
            FrameOutcome::Unprepared { cause } => if fail_on_route_error {
                &&& r matches Err(e) && e@ == route_error_text(
                    "prepare pending connection request "@,
                    addr@,
                    cause@,
                )
                &&& *final(report) == *old(report)
            } else {
                &&& r is Ok
                &&& *final(report) == (ConnectionReport {
                    failed_attempts: plus(old(report).failed_attempts, 1),
                    ..*old(report)
                })
            },
            FrameOutcome::Unsent { cause } => if fail_on_route_error {
                &&& r matches Err(e) && e@ == route_error_text(
                    "sync pending connection request "@,
                    addr@,
                    cause@,
                )
                &&& *final(report) == *old(report)
            } else {
                &&& r is Ok
                &&& *final(report) == (ConnectionReport {
                    failed_attempts: plus(old(report).failed_attempts, 1),
                    ..*old(report)
                })
            },
        },
{
    match outcome {
        FrameOutcome::Sent { sent_events } => {
            report.attempts_sent = report.attempts_sent.saturating_add(1);
            report.sent_events = report.sent_events.saturating_add(sent_events);
            Ok(())
        },
        FrameOutcome::Unprepared { cause } => {
            if fail_on_route_error {
                return Err(route_error("prepare pending connection request ", addr, cause));
            }
            report.failed_attempts = report.failed_attempts.saturating_add(1);
            Ok(())
        },
        FrameOutcome::Unsent { cause } => {
            if fail_on_route_error {
                return Err(route_error("sync pending connection request ", addr, cause));
            }
            report.failed_attempts = report.failed_attempts.saturating_add(1);
            Ok(())
        },
    }
}

// ---------------------------------------------------------------------------
// Responses
// ---------------------------------------------------------------------------

/// Read the first pending responses.
pub fn pending_connection_responses(store: &Store) -> (r: Result<Vec<AddressedId>, String>)
    requires
        store.wf(),
    ensures
        match addressed_rows(
            store@.rows,
            TableName::PendingConnectionResponses,
            PENDING_CONNECTION_LIMIT,
            "event id must be 32 bytes"@,
            Some("pending connection addr is not utf8: "@),
        ) {
            Ok(v) => r matches Ok(x) && addressed_views(x@) == v,
            Err(e) => r matches Err(x) && x@ == e,
        },
{
    pending_connection_rows(store, TableName::PendingConnectionResponses, PENDING_CONNECTION_LIMIT)
}

/// The request that a response answers: the stored event, or else the connection event.
pub open spec fn answered_request(s: StoreState, request_id: EventId) -> Result<
    RequestView,
    Seq<char>,
> {
    if s.events.events.contains_key(request_id@) {
        decoded_request(s.events.events[request_id@].canonical_bytes)
    } else {
        match connection_event_of(s.rows, request_id) {
            Err(_) => Err("missing connection request event"@),
            Ok(bytes) => decoded_request(bytes),
        }
    }
}

fn connection_request_for_response(store: &Store, request_id: &EventId) -> (r: Result<
    RequestEvent,
    String,
>)
    requires
        store.wf(),
    ensures
        match answered_request(store@, *request_id) {
            Ok(v) => r matches Ok(x) && x@ == v,
            Err(e) => r matches Err(x) && x@ == e,
        },
{
    let bytes = match store.events.event_bytes(request_id) {
        Some(bytes) => bytes,
        None => match connection_event_bytes(store, request_id) {
            Ok(bytes) => bytes,
            Err(_) => {
                return Err(text("missing connection request event"));
            },
        },
    };
    decode_request(bytes.as_slice())
}

/// The invite secret that a request was made with.
pub open spec fn request_secret(s: StoreState, id: EventId) -> Result<
    InviteSecretEvent,
    Seq<char>,
> {
    if !s.events.events.contains_key(id@) {
        Err("missing invite secret event"@)
    } else {
        match decoded_invite_secret(s.events.events[id@].canonical_bytes) {
            Ok(v) => Ok(v),
            Err(_) => Err("connection dependency is not an invite secret"@),
        }
    }
}

fn invite_secret_for_response(store: &Store, invite_secret_event_id: &EventId) -> (r: Result<
    InviteSecretEvent,
    String,
>)
    requires
        store.wf(),
    ensures
        match request_secret(store@, *invite_secret_event_id) {
            Ok(v) => r == Ok::<InviteSecretEvent, String>(v),
            Err(e) => r matches Err(x) && x@ == e,
        },
{
    match store.events.event_bytes(invite_secret_event_id) {
        None => Err(text("missing invite secret event")),
        Some(bytes) => match decode_invite_secret(bytes.as_slice()) {
            Ok(secret) => Ok(secret),
            Err(_) => Err(text("connection dependency is not an invite secret")),
        },
    }
}

/// The ephemeral key that a response was made with.
pub open spec fn response_secret(s: StoreState, id: EventId) -> Result<
    EphemeralSecretEvent,
    Seq<char>,
> {
    if !s.events.events.contains_key(id@) {
        Err("missing responder ephemeral event"@)
    } else {
        match decoded_ephemeral_secret(s.events.events[id@].canonical_bytes) {
            Ok(v) => Ok(v),
            Err(_) => Err("connection dependency is not a responder ephemeral"@),
        }
    }
}

fn responder_ephemeral_for_response(store: &Store, responder_ephemeral_event_id: &EventId) -> (r:
    Result<EphemeralSecretEvent, String>)
    requires
        store.wf(),
    ensures
        match response_secret(store@, *responder_ephemeral_event_id) {
            Ok(v) => r == Ok::<EphemeralSecretEvent, String>(v),
            Err(e) => r matches Err(x) && x@ == e,
        },
{
    match store.events.event_bytes(responder_ephemeral_event_id) {
        None => Err(text("missing responder ephemeral event")),
        Some(bytes) => match decode_ephemeral_secret(bytes.as_slice()) {
            Ok(secret) => Ok(secret),
            Err(_) => Err(text("connection dependency is not a responder ephemeral")),
        },
    }
}

/// What a response frame is made of.
#[derive(Debug, Clone, PartialEq, Eq)]
pub enum ResponseFrame {
    /// A response that has to be created.
    New { local: EndpointKeypair, request: RequestEvent, invite_secret: InviteSecretEvent },
    /// The response that made the connection.
    Stored {
        local: EndpointKeypair,
        request: RequestEvent,
        invite_secret: InviteSecretEvent,
        response: ResponseEvent,
        response_bytes: Vec<u8>,
        responder_ephemeral: EphemeralSecretEvent,
    },
}

/// What a response frame is made of.
pub enum ResponseFrameView {
    New { local: EndpointKeypair, request: RequestView, invite_secret: InviteSecretEvent },
    Stored {
        local: EndpointKeypair,
        request: RequestView,
        invite_secret: InviteSecretEvent,
        response: ResponseEvent,
        response_bytes: Seq<u8>,
        responder_ephemeral: EphemeralSecretEvent,
    },
}

impl View for ResponseFrame {
    type V = ResponseFrameView;

    open spec fn view(&self) -> ResponseFrameView {
        match *self {
            ResponseFrame::New { local, request, invite_secret } => ResponseFrameView::New {
                local,
                request: request@,
                invite_secret,
            },
            ResponseFrame::Stored {
                local,
                request,
                invite_secret,
                response,
                response_bytes,
                responder_ephemeral,
            } => ResponseFrameView::Stored {
                local,
                request: request@,
                invite_secret,
                response,
                response_bytes: response_bytes@,
                responder_ephemeral,
            },
        }
    }
}

/// What the frame of the response that made a connection is made of, or why there is none.
pub open spec fn stored_response(s: StoreState, request_id: EventId, connection_id: EventId) -> Result<
    ResponseFrameView,
    Seq<char>,
> {
    match connection_event_of(s.rows, connection_id) {
        Err(e) => Err(e),
        Ok(response_bytes) => match decoded_response(response_bytes) {
            Err(_) => Err("stored connection event is not a response"@),
            Ok(response) => match answered_request(s, request_id) {
                Err(e) => Err(e),
                Ok(request) => match request_secret(s, request.invite_secret_event_id) {
                    Err(e) => Err(e),
                    Ok(invite_secret) => match response_secret(
                        s,
                        response.responder_ephemeral_secret_event_id,
                    ) {
                        Err(e) => Err(e),
                        Ok(responder_ephemeral) => match local_endpoint_of(s.rows) {
                            Err(e) => Err(e),
                            Ok(local) => if response.from_endpoint != local.endpoint {
                                Err(
                                    "stored connection response sender is not the local endpoint"@,
                                )
                            } else {
                                Ok(
                                    ResponseFrameView::Stored {
                                        local,
                                        request,
                                        invite_secret,
                                        response,
                                        response_bytes,
                                        responder_ephemeral,
                                    },
                                )
                            },
                        },
                    },
                },
            },
        },
    }
}

/// What the frame of a new response is made of, or why there is none.
pub open spec fn new_response(s: StoreState, request_id: EventId) -> Result<
    ResponseFrameView,
    Seq<char>,
> {
    match answered_request(s, request_id) {
        Err(e) => Err(e),
        Ok(request) => match request_secret(s, request.invite_secret_event_id) {
            Err(e) => Err(e),
            Ok(invite_secret) => match local_endpoint_of(s.rows) {
                Err(e) => Err(e),
                Ok(local) => Ok(ResponseFrameView::New { local, request, invite_secret }),
            },
        },
    }
}

/// What the frame of a pending response is made of, or why there is none.
pub open spec fn response_frame_of(s: StoreState, request_id: EventId) -> Result<
    ResponseFrameView,
    Seq<char>,
> {
    match connection_of_request(s.rows, request_id) {
        Err(e) => Err(e),
        Ok(Some(connection_id)) => stored_response(s, request_id, connection_id),
        Ok(None) => new_response(s, request_id),
    }
}

fn existing_connection_response_frame(
    store: &Store,
    request_id: &EventId,
    connection_id: &EventId,
) -> (r: Result<ResponseFrame, String>)
    requires
        store.wf(),
    ensures
        match stored_response(store@, *request_id, *connection_id) {
            Ok(v) => r matches Ok(x) && x@ == v,
            Err(e) => r matches Err(x) && x@ == e,
        },
{
    let response_bytes = match connection_event_bytes(store, connection_id) {
        Ok(bytes) => bytes,
        Err(e) => {
            return Err(e);
        },
    };
    let response = match decode_response(response_bytes.as_slice()) {
        Ok(response) => response,
        Err(_) => {
            return Err(text("stored connection event is not a response"));
        },
    };
    let request = match connection_request_for_response(store, request_id) {
        Ok(request) => request,
        Err(e) => {
            return Err(e);
        },
    };
    let invite_secret = match invite_secret_for_response(store, &request.invite_secret_event_id) {
        Ok(secret) => secret,
        Err(e) => {
            return Err(e);
        },
    };
    let responder_ephemeral = match responder_ephemeral_for_response(
        store,
        &response.responder_ephemeral_secret_event_id,
    ) {
        Ok(secret) => secret,
        Err(e) => {
            return Err(e);
        },
    };
    let local = match local_endpoint(store) {
        Ok(local) => local,
        Err(e) => {
            return Err(e);
        },
    };
    if !id_eq(&response.from_endpoint, &local.endpoint) {
        return Err(text("stored connection response sender is not the local endpoint"));
    }
    Ok(
        ResponseFrame::Stored {
            local,
            request,
            invite_secret,
            response,
            response_bytes,
            responder_ephemeral,
        },
    )
}

/// Find what the frame of a pending response is made of.
pub fn connection_response_frame(store: &Store, request_id: &EventId) -> (r: Result<
    ResponseFrame,
    String,
>)
    requires
        store.wf(),
    ensures
        match response_frame_of(store@, *request_id) {
            Ok(v) => r matches Ok(x) && x@ == v,
            Err(e) => r matches Err(x) && x@ == e,
        },
{
    match connection_id_for_request(store, request_id) {
        Err(e) => Err(e),
        Ok(Some(connection_id)) => existing_connection_response_frame(
            store,
            request_id,
            &connection_id,
        ),
        Ok(None) => {
            let request = match connection_request_for_response(store, request_id) {
                Ok(request) => request,
                Err(e) => {
                    return Err(e);
                },
            };
            let invite_secret = match invite_secret_for_response(
                store,
                &request.invite_secret_event_id,
            ) {
                Ok(secret) => secret,
                Err(e) => {
                    return Err(e);
                },
            };
            match local_endpoint(store) {
                Ok(local) => Ok(ResponseFrame::New { local, request, invite_secret }),
                Err(e) => Err(e),
            }
        },
    }
}

/// What the key agreement of a response comes to.
#[derive(Debug, Clone, Copy, PartialEq, Eq)]
pub struct ResponderMaterial {
    pub handshake_hash: EventId,
    pub connection_secret: EventId,
    pub response_key: EventId,
}

/// Check a stored response against its key agreement.
pub fn check_stored_response(response: &ResponseEvent, material: &ResponderMaterial) -> (r: Result<
    (),
    String,
>)
    ensures
        if response.handshake_hash != material.handshake_hash {
            r matches Err(e) && e@
                == "stored connection response handshake hash does not match"@
        } else if response.connection_secret != material.connection_secret {
            r matches Err(e) && e@ == "stored connection response secret does not match"@
        } else {
            r is Ok
        },
{
    if !id_eq(&response.handshake_hash, &material.handshake_hash) {
        return Err(text("stored connection response handshake hash does not match"));
    }
    if !id_eq(&response.connection_secret, &material.connection_secret) {
        return Err(text("stored connection response secret does not match"));
    }
    Ok(())
}

/// Record the events of a new response.
pub fn record_response<R: EventRegistry>(
    store: &mut Store,
    registry: &R,
    events: Vec<ProposedEvent>,
) -> (r: Result<AdmitReport, String>)
    requires
        old(store).wf(),
    ensures
        final(store).wf(),
        recorded(
            registry,
            old(store)@,
            proposal_views(events@),
            "record connection response: "@,
            final(store)@,
            r,
        ),
{
    record_events(store, registry, events, "record connection response: ")
}

/// The rows after what came of sending a response: one that went out is no longer pending.
pub open spec fn response_noted(m: Rows, request_id: EventId, outcome: FrameOutcome) -> Rows {
    match outcome {
        FrameOutcome::Sent { .. } => m.remove(
            (TableName::PendingConnectionResponses, request_id@),
        ),
        _ => m,
    }
}

/// Count what came of sending a response. One that went out is no longer pending; a failure is
/// counted, or returned where the caller asked for that.
pub fn note_response(
    store: &mut Store,
    report: &mut ConnectionReport,
    request_id: &EventId,
    outcome: FrameOutcome,
    addr: &str,
    fail_on_route_error: bool,
) -> (r: Result<(), String>)
    requires
        old(store).wf(),
    ensures
        final(store).wf(),
        final(store)@ == (StoreState {
            rows: response_noted(old(store)@.rows, *request_id, outcome),
            ..old(store)@
        }),
        match outcome {
            FrameOutcome::Sent { sent_events } => {
                &&& r is Ok
                &&& *final(report) == (ConnectionReport {
                    responses_sent: plus(old(report).responses_sent, 1),
                    sent_events: plus(old(report).sent_events, sent_events),
                    ..*old(report)
                })
            },
            FrameOutcome::Unprepared { cause } => if fail_on_route_error {
                &&& r matches Err(e) && e@ == route_error_text(
                    "prepare pending connection response "@,
                    addr@,
                    cause@,
                )
                &&& *final(report) == *old(report)
            } else {
                &&& r is Ok
                &&& *final(report) == (ConnectionReport {
                    failed_responses: plus(old(report).failed_responses, 1),
                    ..*old(report)
                })
            },
            FrameOutcome::Unsent { cause } => if fail_on_route_error {
                &&& r matches Err(e) && e@ == route_error_text(
                    "send pending connection response "@,
                    addr@,
                    cause@,
                )
                &&& *final(report) == *old(report)
            } else {
                &&& r is Ok
                &&& *final(report) == (ConnectionReport {
                    failed_responses: plus(old(report).failed_responses, 1),
                    ..*old(report)
                })
            },
        },
{
    match outcome {
        FrameOutcome::Sent { sent_events } => {
            let _ = store.tables.delete_row(
                TableName::PendingConnectionResponses,
                request_id.as_slice(),
            );
            report.responses_sent = report.responses_sent.saturating_add(1);
            report.sent_events = report.sent_events.saturating_add(sent_events);
            Ok(())
        },
        FrameOutcome::Unprepared { cause } => {
            if fail_on_route_error {
                return Err(route_error("prepare pending connection response ", addr, cause));
            }
            report.failed_responses = report.failed_responses.saturating_add(1);
            Ok(())
        },
        FrameOutcome::Unsent { cause } => {
            if fail_on_route_error {
                return Err(route_error("send pending connection response ", addr, cause));
            }
            report.failed_responses = report.failed_responses.saturating_add(1);
            Ok(())
        },
    }
}

/// Whether a request has become a connection, which is what waiting for it ends with.
pub fn is_connected(store: &Store, request_id: &EventId) -> (r: Result<bool, String>)
    requires
        store.wf(),
    ensures
        match connection_of_request(store@.rows, *request_id) {
            Ok(c) => r == Ok::<bool, String>(c is Some),
            Err(e) => r matches Err(x) && x@ == e,
        },
{
    match connection_id_for_request(store, request_id) {
        Ok(c) => Ok(c.is_some()),
        Err(e) => Err(e),
    }
}

// ---------------------------------------------------------------------------
// Laws
// ---------------------------------------------------------------------------

/// A completed request is no longer pending, its connection has a route, and no other pending
/// request is touched.
pub proof fn law_completed_attempt_becomes_route(
    m: Rows,
    request_id: EventId,
    connection_id: EventId,
    addr: Seq<u8>,
    other: Seq<u8>,
)
    requires
        other != request_id@,
    ensures
        ({
            let after = attempt_completed(m, request_id, connection_id, addr);
            &&& !after.contains_key((TableName::PendingConnectionAttempts, request_id@))
            &&& after.contains_key((TableName::TransportTargets, connection_id@))
            &&& after.contains_key((TableName::PendingConnectionAttempts, other))
                == m.contains_key((TableName::PendingConnectionAttempts, other))
        }),
{
}

/// A response that did not go out stays pending.
pub proof fn law_unsent_response_stays_pending(
    m: Rows,
    request_id: EventId,
    outcome: FrameOutcome,
)
    requires
        !(outcome is Sent),
    ensures
        response_noted(m, request_id, outcome) == m,
{
}

} // verus!
