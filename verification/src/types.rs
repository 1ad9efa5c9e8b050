//! Event records and the facts that travel with them.
use vstd::prelude::*;
use crate::bytes::{copy_bytes, EventId};

verus! {

/// Where a stored event stands on its way to projection.
#[derive(Debug, Clone, Copy, PartialEq, Eq, Structural)]
pub enum EventStatus {
    /// Some dependency is not applied yet.
    Blocked,
    /// Every dependency is applied; projection may run.
    Ready,
    /// Projected.
    Applied,
}

/// The direction of a connection-scoped event.
#[derive(Debug, Clone, Copy, PartialEq, Eq)]
pub enum ConnectionScope {
    Incoming { connection_id: EventId },
    Outgoing { connection_id: EventId },
}

/// Who an event is for.
#[derive(Debug, Clone, Copy, PartialEq, Eq)]
pub enum EventScope {
    /// A durable fact of a workspace, exchanged between peers.
    Shared,
    /// A durable fact of this device.
    Local,
    /// A transient event of one connection.
    Connection(ConnectionScope),
}

impl EventScope {
    /// Whether peers exchange events of this scope.
    pub fn is_shared(&self) -> (r: bool)
        ensures
            r == (*self is Shared),
    {
        match self {
            EventScope::Shared => true,
            _ => false,
        }
    }

    /// Whether events of this scope are kept in the event store.
    pub fn is_durable(&self) -> (r: bool)
        ensures
            r == !(*self is Connection),
    {
        match self {
            EventScope::Connection(_) => false,
            _ => true,
        }
    }
}

/// A decoded canonical event.
#[derive(Debug, Clone, PartialEq, Eq)]
pub struct EventRecord {
    pub timestamp: u64,
    pub body_len: usize,
    pub canonical_bytes: Vec<u8>,
    pub dependencies: Vec<EventId>,
    pub workspace_id: Option<EventId>,
    pub scope: EventScope,
}

/// What an event record says.
pub struct RecordView {
    pub timestamp: u64,
    pub body_len: usize,
    pub canonical_bytes: Seq<u8>,
    pub dependencies: Seq<EventId>,
    pub workspace_id: Option<EventId>,
    pub scope: EventScope,
}

impl View for EventRecord {
    type V = RecordView;

    open spec fn view(&self) -> RecordView {
        RecordView {
            timestamp: self.timestamp,
            body_len: self.body_len,
            canonical_bytes: self.canonical_bytes@,
            dependencies: self.dependencies@,
            workspace_id: self.workspace_id,
            scope: self.scope,
        }
    }
}

impl EventRecord {
    /// A copy.
    pub fn duplicate(&self) -> (r: EventRecord)
        ensures
            r@ == self@,
    {
        EventRecord {
            timestamp: self.timestamp,
            body_len: self.body_len,
            canonical_bytes: copy_bytes(self.canonical_bytes.as_slice()),
            dependencies: copy_ids(&self.dependencies),
            workspace_id: self.workspace_id,
            scope: self.scope,
        }
    }
}

/// Copy a list of ids.
pub fn copy_ids(ids: &Vec<EventId>) -> (r: Vec<EventId>)
    ensures
        r@ == ids@,
{
    let mut out: Vec<EventId> = Vec::new();
    let mut i: usize = 0;
    while i < ids.len()
        invariant
            i <= ids.len(),
            out@ == ids@.take(i as int),
        decreases ids.len() - i,
    {
        out.push(ids[i]);
        assert(ids@.take(i + 1) =~= ids@.take(i as int).push(ids@[i as int]));
        i = i + 1;
    }
    assert(ids@.take(i as int) =~= ids@);
    out
}

/// The place of a shared event in the timestamp index.
#[derive(Debug, Clone, Copy, PartialEq, Eq)]
pub struct EventIndexEntry {
    pub event_id: EventId,
    pub timestamp: u64,
    pub workspace_id: Option<EventId>,
}

impl View for EventIndexEntry {
    type V = EventIndexEntry;

    open spec fn view(&self) -> EventIndexEntry {
        *self
    }
}

/// A generic fact attached to an event id by a projector.
#[derive(Debug, Clone, PartialEq, Eq)]
pub struct EventLabel {
    pub event_id: EventId,
    pub label: Vec<u8>,
}

/// What entitled a sender to hand over an event.
#[derive(Debug, Clone, Copy, PartialEq, Eq, Structural)]
pub enum ReceiveAuthorization {
    /// The envelope was opened with an invite key.
    BootstrapInvite,
    /// The envelope was opened with the endpoint key.
    EndpointReceive,
}

/// How an event was received. `origin` is the socket address of the sender in text form.
#[derive(Debug, Clone, PartialEq, Eq)]
pub struct ReceiveMetadata {
    pub origin: Vec<u8>,
    pub local_endpoint: EventId,
    pub remote_endpoint: EventId,
    pub remember_route: bool,
    pub authorization: ReceiveAuthorization,
}

/// What receive metadata says.
pub struct ReceiveView {
    pub origin: Seq<u8>,
    pub local_endpoint: EventId,
    pub remote_endpoint: EventId,
    pub remember_route: bool,
    pub authorization: ReceiveAuthorization,
}

impl View for ReceiveMetadata {
    type V = ReceiveView;

    open spec fn view(&self) -> ReceiveView {
        ReceiveView {
            origin: self.origin@,
            local_endpoint: self.local_endpoint,
            remote_endpoint: self.remote_endpoint,
            remember_route: self.remember_route,
            authorization: self.authorization,
        }
    }
}

/// What optional receive metadata says.
pub open spec fn receive_view(receive: Option<ReceiveMetadata>) -> Option<ReceiveView> {
    match receive {
        Some(r) => Some(r@),
        None => None,
    }
}

impl ReceiveMetadata {
    /// Received under an invite key.
    pub fn bootstrap_invite(
        origin: Vec<u8>,
        local_endpoint: EventId,
        remote_endpoint: EventId,
        remember_route: bool,
    ) -> (r: ReceiveMetadata)
        ensures
            r@ == (ReceiveView {
                origin: origin@,
                local_endpoint,
                remote_endpoint,
                remember_route,
                authorization: ReceiveAuthorization::BootstrapInvite,
            }),
    {
        ReceiveMetadata {
            origin,
            local_endpoint,
            remote_endpoint,
            remember_route,
            authorization: ReceiveAuthorization::BootstrapInvite,
        }
    }

    /// Received under the endpoint key.
    pub fn endpoint_receive(
        origin: Vec<u8>,
        local_endpoint: EventId,
        remote_endpoint: EventId,
        remember_route: bool,
    ) -> (r: ReceiveMetadata)
        ensures
            r@ == (ReceiveView {
                origin: origin@,
                local_endpoint,
                remote_endpoint,
                remember_route,
                authorization: ReceiveAuthorization::EndpointReceive,
            }),
    {
        ReceiveMetadata {
            origin,
            local_endpoint,
            remote_endpoint,
            remember_route,
            authorization: ReceiveAuthorization::EndpointReceive,
        }
    }

    /// A copy.
    pub fn duplicate(&self) -> (r: ReceiveMetadata)
        ensures
            r@ == self@,
    {
        ReceiveMetadata {
            origin: copy_bytes(self.origin.as_slice()),
            local_endpoint: self.local_endpoint,
            remote_endpoint: self.remote_endpoint,
            remember_route: self.remember_route,
            authorization: self.authorization,
        }
    }
}

/// A copy of optional receive metadata.
pub fn duplicate_receive(receive: &Option<ReceiveMetadata>) -> (r: Option<ReceiveMetadata>)
    ensures
        receive_view(r) == receive_view(*receive),
{
    match receive {
        Some(m) => Some(m.duplicate()),
        None => None,
    }
}

} // verus!
