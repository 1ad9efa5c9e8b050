//! Answering inbound sync events.
//!
//! Each queued sync event is handed out with the connection that its answer goes to and with
//! what its connection may see. Once all of them are answered, the answers are recorded in one
//! go: requested events are queued for sending, and the queue entries are consumed.
use vstd::prelude::*;
use crate::bytes::{has_prefix, id_eq, lemma_id_with, EventId};
use crate::connections::{
    bootstrap_workspace_id, bootstrap_workspace_of, connection_ids_with_routes,
    law_routed_connections_have_targets, remote_endpoint, remote_endpoint_of, routed_connections,
    ConnectionId,
};
use crate::endpoints::{local_endpoint, local_endpoint_of};
use crate::schema::{
    claim_sync_in_events, claim_sync_in_events_for_connection, claimed_sync_in, collected,
    lemma_collected_at, lemma_collected_step, sync_in_error, sync_in_of, sync_in_views,
    transit_out_row, transit_out_row_of, SyncInEvent, TransitOutKey, SYNC_IN_EVENTS,
};
use crate::store::{Store, StoreState};
use crate::sync::{at_least_one, connection_workspaces, counted, SyncContext};
use crate::table::{countable, key_views};
use crate::tables::{
    keys_of, law_added_rows_are_there, law_first_rows_come_first, row_views, rows_added,
    rows_listed, rows_removed, RowView, Rows, TableName, TableRow,
};
use crate::text::prefixed;
use crate::types::{EventRecord, RecordView};

verus! {

// ---------------------------------------------------------------------------
// Where an answer goes
// ---------------------------------------------------------------------------

/// The connection for an answer to `remote`, looked for from the `i`-th routed connection on.
/// The first one that is not for an invite is taken; `fallback` is the first one that is.
pub open spec fn response_from(
    m: Rows,
    remote: EventId,
    connections: Seq<EventId>,
    i: int,
    fallback: Option<EventId>,
) -> Result<Option<EventId>, Seq<char>>
    decreases connections.len() - i,
{
    if i < 0 || i >= connections.len() {
        Ok(fallback)
    } else {
        let connection_id = connections[i];
        match remote_endpoint_of(m, connection_id) {
            Err(e) => Err(e),
            Ok(other) => if other != remote {
                response_from(m, remote, connections, i + 1, fallback)
            } else {
                match bootstrap_workspace_of(m, connection_id) {
                    Err(e) => Err(e),
                    Ok(None) => Ok(Some(connection_id)),
                    Ok(Some(_)) => response_from(
                        m,
                        remote,
                        connections,
                        i + 1,
                        if fallback is None {
                            Some(connection_id)
                        } else {
                            fallback
                        },
                    ),
                }
            },
        }
    }
}

/// The connection for an answer to what came in over a connection: a routed one to the same
/// remote endpoint, or else the same one.
pub open spec fn response_connection(m: Rows, inbound: EventId) -> Result<EventId, Seq<char>> {
    match remote_endpoint_of(m, inbound) {
        Err(e) => Err(e),
        Ok(remote) => match routed_connections(m) {
            Err(e) => Err(e),
            Ok(connections) => match response_from(m, remote, connections, 0, None) {
                Err(e) => Err(e),
                Ok(None) => Ok(inbound),
                Ok(Some(c)) => Ok(c),
            },
        },
    }
}

/// Find the connection for an answer to what came in over a connection.
pub fn response_connection_id(store: &Store, inbound_connection_id: &ConnectionId) -> (r: Result<
    ConnectionId,
    String,
>)
    requires
        store.wf(),
    ensures
        match response_connection(store@.rows, *inbound_connection_id) {
            Ok(v) => r == Ok::<EventId, String>(v),
            Err(e) => r matches Err(x) && x@ == e,
        },
{
    let remote = match remote_endpoint(store, inbound_connection_id) {
        Ok(remote) => remote,
        Err(e) => {
            return Err(e);
        },
    };
    let connections = match connection_ids_with_routes(store) {
        Ok(connections) => connections,
        Err(e) => {
            return Err(e);
        },
    };
    let ghost m = store@.rows;
    let mut fallback: Option<ConnectionId> = None;
    let mut i: usize = 0;
    while i < connections.len()
        invariant
            store.wf(),
            m == store@.rows,
            i <= connections@.len(),
            remote_endpoint_of(m, *inbound_connection_id) == Ok::<EventId, Seq<char>>(remote),
            routed_connections(m) == Ok::<Seq<EventId>, Seq<char>>(connections@),
            response_from(m, remote, connections@, 0, None) == response_from(
                m,
                remote,
                connections@,
                i as int,
                fallback,
            ),
        decreases connections.len() - i,
    {
        let connection_id = connections[i];
        let other = match remote_endpoint(store, &connection_id) {
            Ok(other) => other,
            Err(e) => {
                return Err(e);
            },
        };
        if id_eq(&other, &remote) {
            match bootstrap_workspace_id(store, &connection_id) {
                Ok(None) => {
                    return Ok(connection_id);
                },
                Ok(Some(_)) => {
                    if fallback.is_none() {
                        fallback = Some(connection_id);
                    }
                },
                Err(e) => {
                    return Err(e);
                },
            }
        }
        i = i + 1;
    }
    match fallback {
        Some(connection_id) => Ok(connection_id),
        None => Ok(*inbound_connection_id),
    }
}

/// An answer goes to an endpoint that the inbound event came from.
pub proof fn law_answer_goes_back(m: Rows, inbound: EventId)
    requires
        response_connection(m, inbound) is Ok,
    ensures
        remote_endpoint_of(m, response_connection(m, inbound)->Ok_0) == remote_endpoint_of(
            m,
            inbound,
        ),
{
    let remote = remote_endpoint_of(m, inbound)->Ok_0;
    let connections = routed_connections(m)->Ok_0;
    lemma_response_remote(m, remote, connections, 0, None);
}

proof fn lemma_response_remote(
    m: Rows,
    remote: EventId,
    connections: Seq<EventId>,
    i: int,
    fallback: Option<EventId>,
)
    requires
        0 <= i,
        fallback matches Some(c) ==> remote_endpoint_of(m, c) == Ok::<EventId, Seq<char>>(remote),
    ensures
        response_from(m, remote, connections, i, fallback) matches Ok(Some(c))
            ==> remote_endpoint_of(m, c) == Ok::<EventId, Seq<char>>(remote),
    decreases connections.len() - i,
{
    if i < connections.len() {
        let c = connections[i];
        lemma_response_remote(m, remote, connections, i + 1, fallback);
        if remote_endpoint_of(m, c) == Ok::<EventId, Seq<char>>(remote) && fallback is None {
            lemma_response_remote(m, remote, connections, i + 1, Some(c));
        }
    }
}

/// A steady route is preferred: where an answer goes over a connection of an invite, no routed
/// connection to the same endpoint is free of one.
pub proof fn law_steady_route_is_preferred(m: Rows, inbound: EventId, k: int)
    requires
        response_connection(m, inbound) matches Ok(c) && bootstrap_workspace_of(m, c) matches Ok(
            Some(_),
        ),
        routed_connections(m) matches Ok(connections) && 0 <= k < connections.len(),
        remote_endpoint_of(m, (routed_connections(m)->Ok_0)[k]) == remote_endpoint_of(m, inbound),
    ensures
        bootstrap_workspace_of(m, (routed_connections(m)->Ok_0)[k]) matches Ok(Some(_)),
{
    let remote = remote_endpoint_of(m, inbound)->Ok_0;
    let connections = routed_connections(m)->Ok_0;
    if !(bootstrap_workspace_of(m, connections[k]) matches Ok(Some(_))) {
        lemma_steady_route(m, remote, connections, 0, None, k);
    }
}

proof fn lemma_steady_route(
    m: Rows,
    remote: EventId,
    connections: Seq<EventId>,
    i: int,
    fallback: Option<EventId>,
    k: int,
)
    requires
        0 <= i <= k < connections.len(),
        remote_endpoint_of(m, connections[k]) == Ok::<EventId, Seq<char>>(remote),
        !(bootstrap_workspace_of(m, connections[k]) matches Ok(Some(_))),
    ensures
        response_from(m, remote, connections, i, fallback) matches Ok(c) ==> c matches Some(c)
            && bootstrap_workspace_of(m, c) == Ok::<Option<EventId>, Seq<char>>(None),
    decreases k - i,
{
    if i < k {
        lemma_steady_route(m, remote, connections, i + 1, fallback, k);
        lemma_steady_route(m, remote, connections, i + 1, Some(connections[i]), k);
    }
}

// ---------------------------------------------------------------------------
// Handing out inbound events
// ---------------------------------------------------------------------------

/// An inbound sync event with what is needed to answer it.
#[derive(Debug, Clone, PartialEq, Eq)]
pub struct InboundSync {
    pub event: SyncInEvent,
    pub response_connection_id: ConnectionId,
    pub context: SyncContext,
}

/// What is handed out for an inbound event.
pub struct InboundView {
    pub connection_id: EventId,
    pub event_id: EventId,
    pub event_bytes: Seq<u8>,
    pub response_connection_id: EventId,
    pub workspace_ids: Seq<EventId>,
}

impl View for InboundSync {
    type V = InboundView;

    open spec fn view(&self) -> InboundView {
        InboundView {
            connection_id: self.event.connection_id,
            event_id: self.event.event_id,
            event_bytes: self.event.event_bytes@,
            response_connection_id: self.response_connection_id,
            workspace_ids: self.context.workspace_ids@,
        }
    }
}

/// What some inbound events are handed out with.
pub open spec fn inbound_views(inbound: Seq<InboundSync>) -> Seq<InboundView> {
    inbound.map_values(|i: InboundSync| i@)
}

/// What one inbound event is handed out with, or why it cannot be answered.
pub open spec fn inbound_of(m: Rows, local: EventId, w: (EventId, EventId, Seq<u8>)) -> Result<
    InboundView,
    Seq<char>,
> {
    match response_connection(m, w.0) {
        Err(e) => Err(e),
        Ok(response_connection_id) => match connection_workspaces(m, local, w.0) {
            Err(e) => Err(e),
            Ok(workspace_ids) => Ok(
                InboundView {
                    connection_id: w.0,
                    event_id: w.1,
                    event_bytes: w.2,
                    response_connection_id,
                    workspace_ids,
                },
            ),
        },
    }
}

/// What the first inbound events under a prefix are handed out with, or what is wrong.
pub open spec fn inbound_work(m: Rows, prefix: Seq<u8>, limit: usize) -> Result<
    Seq<InboundView>,
    Seq<char>,
> {
    match claimed_sync_in(m, prefix, at_least_one(limit)) {
        Err(e) => Err("load sync in events: "@ + e),
        Ok(works) => if works.len() == 0 {
            Ok(Seq::empty())
        } else {
            match local_endpoint_of(m) {
                Err(e) => Err(e),
                Ok(local) => collected(
                    works.map_values(
                        |w: (EventId, EventId, Seq<u8>)| inbound_of(m, local.endpoint, w),
                    ),
                ),
            }
        },
    }
}

fn hand_out(store: &Store, works: Vec<SyncInEvent>) -> (r: Result<Vec<InboundSync>, String>)
    requires
        store.wf(),
    ensures
        ({
            let m = store@.rows;
            let views = sync_in_views(works@);
            if views.len() == 0 {
                r matches Ok(x) && x@.len() == 0
            } else {
                match local_endpoint_of(m) {
                    Err(e) => r matches Err(x) && x@ == e,
                    Ok(local) => match collected(
                        views.map_values(
                            |w: (EventId, EventId, Seq<u8>)| inbound_of(m, local.endpoint, w),
                        ),
                    ) {
                        Ok(v) => r matches Ok(x) && inbound_views(x@) == v,
                        Err(e) => r matches Err(x) && x@ == e,
                    },
                }
            }
        }),
{
    let mut out: Vec<InboundSync> = Vec::new();
    if works.len() == 0 {
        return Ok(out);
    }
    let local = match local_endpoint(store) {
        Ok(local) => local.endpoint,
        Err(e) => {
            return Err(e);
        },
    };
    let ghost m = store@.rows;
    let ghost views = sync_in_views(works@);
    let ghost items = views.map_values(
        |w: (EventId, EventId, Seq<u8>)| inbound_of(m, local, w),
    );
    let mut i: usize = 0;
    assert(inbound_views(out@) =~= Seq::empty());
    while i < works.len()
        invariant
            store.wf(),
            m == store@.rows,
            i <= works@.len(),
            views == sync_in_views(works@),
            items == views.map_values(
                |w: (EventId, EventId, Seq<u8>)| inbound_of(m, local, w),
            ),
            items.len() == works@.len(),
            works@.len() > 0,
            local_endpoint_of(m) matches Ok(k) && k.endpoint == local,
            collected(items.take(i as int)) == Ok::<Seq<InboundView>, Seq<char>>(
                inbound_views(out@),
            ),
        decreases works.len() - i,
    {
        let connection_id = works[i].connection_id;
        proof {
            assert(views[i as int] == (
                works@[i as int].connection_id,
                works@[i as int].event_id,
                works@[i as int].event_bytes@,
            ));
            lemma_collected_step(items, i as int);
        }
        let response_connection_id = match response_connection_id(store, &connection_id) {
            Ok(c) => c,
            Err(e) => {
                return Err(e);
            },
        };
        let context = match SyncContext::for_connection(store, &local, &connection_id) {
            Ok(context) => context,
            Err(e) => {
                return Err(e);
            },
        };
        let event = SyncInEvent {
            connection_id,
            event_id: works[i].event_id,
            event_bytes: crate::bytes::copy_bytes(works[i].event_bytes.as_slice()),
        };
        let ghost before = out@;
        let next = InboundSync { event, response_connection_id, context };
        out.push(next);
        assert(inbound_views(out@) =~= inbound_views(before).push(next@));
        i = i + 1;
    }
    assert(items.take(i as int) =~= items);
    Ok(out)
}

/// Hand out the first `limit` inbound events, at least one.
pub fn drain_in_events(store: &Store, limit: usize) -> (r: Result<Vec<InboundSync>, String>)
    requires
        store.wf(),
    ensures
        match inbound_work(store@.rows, Seq::empty(), limit) {
            Ok(v) => r matches Ok(x) && inbound_views(x@) == v,
            Err(e) => r matches Err(x) && x@ == e,
        },
{
    let batch: usize = if limit == 0 {
        1
    } else {
        limit
    };
    match claim_sync_in_events(store, batch) {
        Ok(works) => {
            let r = hand_out(store, works);
            assert(Seq::<InboundSync>::empty().map_values(|i: InboundSync| i@) =~= Seq::empty());
            proof {
                if sync_in_views(works@).len() == 0 {
                    assert(inbound_views(r->Ok_0@) =~= Seq::empty());
                }
            }
            r
        },
        Err(e) => Err(prefixed("load sync in events: ", e)),
    }
}

/// Hand out the first `limit` inbound events of one connection, at least one.
pub fn drain_connection_in_events(store: &Store, connection_id: &ConnectionId, limit: usize) -> (r:
    Result<Vec<InboundSync>, String>)
    requires
        store.wf(),
    ensures
        match inbound_work(store@.rows, connection_id@, limit) {
            Ok(v) => r matches Ok(x) && inbound_views(x@) == v,
            Err(e) => r matches Err(x) && x@ == e,
        },
{
    let batch: usize = if limit == 0 {
        1
    } else {
        limit
    };
    match claim_sync_in_events_for_connection(store, *connection_id, batch) {
        Ok(works) => {
            let r = hand_out(store, works);
            proof {
                if sync_in_views(works@).len() == 0 {
                    assert(inbound_views(r->Ok_0@) =~= Seq::empty());
                }
            }
            r
        },
        Err(e) => Err(prefixed("load sync in events: ", e)),
    }
}

// ---------------------------------------------------------------------------
// Recording answers
// ---------------------------------------------------------------------------

/// What came of an inbound event.
#[derive(Debug, Clone, PartialEq, Eq)]
pub struct SyncReply {
    pub processed_work: usize,
    pub sent_events: usize,
    /// Sync events to propose.
    pub events: Vec<EventRecord>,
    /// Stored events that the peer asked for.
    pub transit_out: Vec<TransitOutKey>,
}

/// An inbound event with its answer.
#[derive(Debug, Clone, PartialEq, Eq)]
pub struct AnsweredSync {
    pub event: SyncInEvent,
    pub reply: SyncReply,
}

/// What came of some inbound events.
#[derive(Debug, Clone, PartialEq, Eq)]
pub struct SyncWorkReport {
    pub processed_work: usize,
    pub sent_events: usize,
    pub events: Vec<EventRecord>,
    pub transit_out: Vec<TransitOutKey>,
    pub send_event_ids: Vec<EventId>,
}

/// What some records say.
pub open spec fn record_views(records: Seq<EventRecord>) -> Seq<RecordView> {
    records.map_values(|r: EventRecord| r@)
}

/// How much was done for the first `n` events.
pub open spec fn work_total(answered: Seq<AnsweredSync>, n: int) -> nat
    decreases n,
{
    if n <= 0 {
        0
    } else {
        work_total(answered, n - 1) + answered[n - 1].reply.processed_work as nat
    }
}

/// How much was sent for the first `n` events.
pub open spec fn sent_total(answered: Seq<AnsweredSync>, n: int) -> nat
    decreases n,
{
    if n <= 0 {
        0
    } else {
        sent_total(answered, n - 1) + answered[n - 1].reply.sent_events as nat
    }
}

/// What is proposed for the first `n` events, in their order.
pub open spec fn all_records(answered: Seq<AnsweredSync>, n: int) -> Seq<RecordView>
    decreases n,
{
    if n <= 0 {
        Seq::empty()
    } else {
        all_records(answered, n - 1) + record_views(answered[n - 1].reply.events@)
    }
}

/// What is to be sent for the first `n` events, in their order.
pub open spec fn all_sends(answered: Seq<AnsweredSync>, n: int) -> Seq<TransitOutKey>
    decreases n,
{
    if n <= 0 {
        Seq::empty()
    } else {
        all_sends(answered, n - 1) + answered[n - 1].reply.transit_out@
    }
}

/// The rows that queue some events for sending.
pub open spec fn send_rows(sends: Seq<TransitOutKey>) -> Seq<RowView> {
    sends.map_values(|s: TransitOutKey| transit_out_row_of(s.connection_id, s.event_id))
}

/// The keys of the queue entries of some inbound events.
pub open spec fn answered_keys(answered: Seq<AnsweredSync>) -> Set<Seq<u8>> {
    answered.map_values(
        |a: AnsweredSync| a.event.connection_id@ + a.event.event_id@,
    ).to_set()
}

/// The rows after answers are recorded.
pub open spec fn answers_recorded(m: Rows, answered: Seq<AnsweredSync>) -> Rows {
    let sends = send_rows(all_sends(answered, answered.len() as int));
    rows_removed(
        rows_added(m, sends, sends.len() as int),
        SYNC_IN_EVENTS,
        answered_keys(answered),
    )
}

/// A report holds what came of some inbound events.
pub open spec fn report_holds(report: SyncWorkReport, answered: Seq<AnsweredSync>) -> bool {
    let n = answered.len() as int;
    &&& report.processed_work == counted(work_total(answered, n))
    &&& report.sent_events == counted(sent_total(answered, n))
    &&& record_views(report.events@) == all_records(answered, n)
    &&& report.transit_out@ == all_sends(answered, n)
    &&& report.send_event_ids@ == all_sends(answered, n).map_values(|s: TransitOutKey| s.event_id)
}

fn add_reply(
    report: &mut SyncWorkReport,
    rows: &mut Vec<TableRow>,
    reply: &SyncReply,
    Ghost(sends): Ghost<Seq<TransitOutKey>>,
)
    requires
        old(report).transit_out@ == sends,
        old(report).send_event_ids@ == sends.map_values(|s: TransitOutKey| s.event_id),
        row_views(old(rows)@) == send_rows(sends),
    ensures
        final(report).processed_work == old(report).processed_work,
        final(report).sent_events == old(report).sent_events,
        record_views(final(report).events@) == record_views(old(report).events@) + record_views(
            reply.events@,
        ),
        final(report).transit_out@ == sends + reply.transit_out@,
        final(report).send_event_ids@ == (sends + reply.transit_out@).map_values(
            |s: TransitOutKey| s.event_id,
        ),
        row_views(final(rows)@) == send_rows(sends + reply.transit_out@),
{
    let ghost events0 = record_views(report.events@);
    let ghost asked = reply.transit_out@;
    let mut i: usize = 0;
    assert(record_views(report.events@) =~= events0 + record_views(reply.events@.take(0)));
    while i < reply.events.len()
        invariant
            i <= reply.events@.len(),
            report.processed_work == old(report).processed_work,
            report.sent_events == old(report).sent_events,
            report.transit_out@ == old(report).transit_out@,
            report.send_event_ids@ == old(report).send_event_ids@,
            record_views(report.events@) == events0 + record_views(reply.events@.take(i as int)),
        decreases reply.events.len() - i,
    {
        let record = reply.events[i].duplicate();
        let ghost before = report.events@;
        report.events.push(record);
        proof {
            assert(record_views(report.events@) =~= record_views(before).push(record@));
            assert(reply.events@.take(i + 1) =~= reply.events@.take(i as int).push(
                reply.events@[i as int],
            ));
            assert(record_views(report.events@) =~= events0 + record_views(
                reply.events@.take(i + 1),
            ));
        }
        i = i + 1;
    }
    assert(reply.events@.take(i as int) =~= reply.events@);
    let mut j: usize = 0;
    assert(sends + asked.take(0) =~= sends);
    while j < reply.transit_out.len()
        invariant
            j <= reply.transit_out@.len(),
            asked == reply.transit_out@,
            report.processed_work == old(report).processed_work,
            report.sent_events == old(report).sent_events,
            record_views(report.events@) == events0 + record_views(reply.events@),
            report.transit_out@ == sends + asked.take(j as int),
            report.send_event_ids@ == (sends + asked.take(j as int)).map_values(
                |s: TransitOutKey| s.event_id,
            ),
            row_views(rows@) == send_rows(sends + asked.take(j as int)),
        decreases reply.transit_out.len() - j,
    {
        let send = reply.transit_out[j];
        let row = transit_out_row(send.connection_id, send.event_id);
        let ghost rows0 = rows@;
        rows.push(row);
        report.transit_out.push(send);
        report.send_event_ids.push(send.event_id);
        proof {
            let (a, b) = (sends + asked.take(j as int), sends + asked.take(j + 1));
            assert(b =~= a.push(send));
            assert(row_views(rows@) =~= row_views(rows0).push(row@));
            assert(row_views(rows@) =~= send_rows(b));
            assert(report.send_event_ids@ =~= b.map_values(|s: TransitOutKey| s.event_id));
        }
        j = j + 1;
    }
    assert(asked.take(j as int) =~= asked);
}

/// Record the answers to some inbound events.
pub fn record_replies(store: &mut Store, answered: &Vec<AnsweredSync>) -> (report: SyncWorkReport)
    requires
        old(store).wf(),
    ensures
        final(store).wf(),
        final(store)@ == (StoreState {
            rows: answers_recorded(old(store)@.rows, answered@),
            ..old(store)@
        }),
        report_holds(report, answered@),
{
    let mut report = SyncWorkReport {
        processed_work: 0,
        sent_events: 0,
        events: Vec::new(),
        transit_out: Vec::new(),
        send_event_ids: Vec::new(),
    };
    let mut rows: Vec<TableRow> = Vec::new();
    let mut keys: Vec<Vec<u8>> = Vec::new();
    let ghost key_of = |a: AnsweredSync| a.event.connection_id@ + a.event.event_id@;
    let mut i: usize = 0;
    proof {
        assert(record_views(report.events@) =~= Seq::empty());
        assert(report.send_event_ids@ =~= Seq::<TransitOutKey>::empty().map_values(
            |s: TransitOutKey| s.event_id,
        ));
        assert(row_views(rows@) =~= send_rows(Seq::empty()));
        assert(key_views(keys@) =~= answered@.take(0).map_values(key_of));
    }
    while i < answered.len()
        invariant
            i <= answered@.len(),
            key_of == (|a: AnsweredSync| a.event.connection_id@ + a.event.event_id@),
            report.processed_work == counted(work_total(answered@, i as int)),
            report.sent_events == counted(sent_total(answered@, i as int)),
            record_views(report.events@) == all_records(answered@, i as int),
            report.transit_out@ == all_sends(answered@, i as int),
            report.send_event_ids@ == all_sends(answered@, i as int).map_values(
                |s: TransitOutKey| s.event_id,
            ),
            row_views(rows@) == send_rows(all_sends(answered@, i as int)),
            key_views(keys@) == answered@.take(i as int).map_values(key_of),
        decreases answered.len() - i,
    {
        let reply = &answered[i].reply;
        report.processed_work = report.processed_work.saturating_add(reply.processed_work);
        report.sent_events = report.sent_events.saturating_add(reply.sent_events);
        add_reply(&mut report, &mut rows, reply, Ghost(all_sends(answered@, i as int)));
        let key = answered[i].event.key();
        let ghost keys0 = keys@;
        keys.push(key);
        proof {
            assert(key_views(keys@) =~= key_views(keys0).push(key@));
            assert(answered@.take(i + 1) =~= answered@.take(i as int).push(answered@[i as int]));
            assert(key_views(keys@) =~= answered@.take(i + 1).map_values(key_of));
        }
        i = i + 1;
    }
    proof {
        assert(answered@.take(i as int) =~= answered@);
        assert(row_views(rows@).len() == rows@.len());
    }
    let _ = store.tables.insert_table_rows(&rows);
    let _ = store.tables.delete_table_rows(SYNC_IN_EVENTS, &keys);
    report
}

/// Inbound events are handed out completely: with room for all of them each event that is queued
/// under a prefix comes out with its bytes, its connection and the connection that its answer goes
/// to.
pub proof fn law_every_inbound_event_is_handed_out(
    m: Rows,
    prefix: Seq<u8>,
    limit: usize,
    connection_id: EventId,
    event_id: EventId,
)
    requires
        countable(keys_of(m, SYNC_IN_EVENTS)),
        keys_of(m, SYNC_IN_EVENTS).len() <= limit,
        m.contains_key((SYNC_IN_EVENTS, connection_id@ + event_id@)),
        has_prefix(connection_id@ + event_id@, prefix),
    ensures
        inbound_work(m, prefix, limit) matches Ok(work) ==> exists|i: int|
            {
                &&& 0 <= i < work.len()
                &&& (#[trigger] work[i]).connection_id == connection_id
                &&& work[i].event_id == event_id
                &&& work[i].event_bytes == m[(SYNC_IN_EVENTS, connection_id@ + event_id@)]
                &&& response_connection(m, connection_id) == Ok::<EventId, Seq<char>>(
                    work[i].response_connection_id,
                )
            },
{
    let t = SYNC_IN_EVENTS;
    let k = connection_id@ + event_id@;
    let rows = rows_listed(m, t, prefix, at_least_one(limit));
    let items = rows.map_values(|row: (Seq<u8>, Seq<u8>)| sync_in_error(sync_in_of(row)));
    law_first_rows_come_first(m, t, prefix, at_least_one(limit));
    lemma_collected_at(items);
    if let Ok(work) = inbound_work(m, prefix, limit) {
        let works = claimed_sync_in(m, prefix, at_least_one(limit))->Ok_0;
        assert(rows.contains((k, m[(t, k)])));
        let i = choose|i: int| 0 <= i < rows.len() && rows[i] == (k, m[(t, k)]);
        assert(items[i] == sync_in_error(sync_in_of(rows[i])));
        assert(k.take(32) =~= connection_id@);
        assert(k.skip(32) =~= event_id@);
        lemma_id_with(connection_id);
        lemma_id_with(event_id);
        assert(works[i] == (connection_id, event_id, m[(t, k)]));
        let local = local_endpoint_of(m)->Ok_0.endpoint;
        let answers = works.map_values(
            |w: (EventId, EventId, Seq<u8>)| inbound_of(m, local, w),
        );
        lemma_collected_at(answers);
        assert(answers[i] == inbound_of(m, local, works[i]));
        assert(work[i].connection_id == connection_id);
    }
}

proof fn lemma_all_sends(answered: Seq<AnsweredSync>, n: int)
    requires
        0 <= n <= answered.len(),
    ensures
        forall|i: int, k: TransitOutKey|
            #![trigger answered[i].reply.transit_out@.contains(k)]
            0 <= i < n && answered[i].reply.transit_out@.contains(k) ==> all_sends(
                answered,
                n,
            ).contains(k),
        forall|k: TransitOutKey| #[trigger]
            all_sends(answered, n).contains(k) ==> exists|i: int|
                0 <= i < n && (#[trigger] answered[i]).reply.transit_out@.contains(k),
    decreases n,
{
    if n > 0 {
        lemma_all_sends(answered, n - 1);
        let before = all_sends(answered, n - 1);
        let last = answered[n - 1].reply.transit_out@;
        let all = all_sends(answered, n);
        assert forall|i: int, k: TransitOutKey|
            #![trigger answered[i].reply.transit_out@.contains(k)]
            0 <= i < n && answered[i].reply.transit_out@.contains(k) implies all.contains(k) by {
            if i == n - 1 {
                let j = choose|j: int| 0 <= j < last.len() && last[j] == k;
                assert(all[before.len() + j] == k);
            } else {
                let j = choose|j: int| 0 <= j < before.len() && before[j] == k;
                assert(all[j] == k);
            }
        }
        assert forall|k: TransitOutKey| #[trigger] all.contains(k) implies exists|i: int|
            0 <= i < n && (#[trigger] answered[i]).reply.transit_out@.contains(k) by {
            let j = choose|j: int| 0 <= j < all.len() && all[j] == k;
            if j < before.len() {
                assert(before[j] == k);
                assert(before.contains(k));
                let i = choose|i: int|
                    0 <= i < n - 1 && (#[trigger] answered[i]).reply.transit_out@.contains(k);
                assert(answered[i].reply.transit_out@.contains(k));
            } else {
                assert(last[j - before.len()] == k);
                assert(answered[n - 1].reply.transit_out@.contains(k));
            }
        }
    }
}

/// Every answer is recorded: each event that any of the replies asks to send is queued for its
/// connection, each answered event is off the queue, and events that were not answered stay on it.
pub proof fn law_every_reply_is_recorded(m: Rows, answered: Seq<AnsweredSync>)
    ensures
        forall|i: int, k: TransitOutKey|
            #![trigger answered[i].reply.transit_out@.contains(k)]
            0 <= i < answered.len() && answered[i].reply.transit_out@.contains(k)
                ==> answers_recorded(m, answered).contains_key(
                (TableName::TransitOut, k.connection_id@ + k.event_id@),
            ),
        forall|i: int|
            0 <= i < answered.len() ==> !answers_recorded(m, answered).contains_key(
                (
                    TableName::SyncInEvents,
                    (#[trigger] answered[i]).event.connection_id@ + answered[i].event.event_id@,
                ),
            ),
        forall|key: Seq<u8>| #[trigger]
            m.contains_key((TableName::SyncInEvents, key)) && (forall|i: int|
                0 <= i < answered.len() ==> (#[trigger] answered[i]).event.connection_id@
                    + answered[i].event.event_id@ != key) ==> answers_recorded(
                m,
                answered,
            ).contains_key((TableName::SyncInEvents, key)),
        forall|key: (TableName, Seq<u8>)| #[trigger]
            m.contains_key(key) && key.0 != TableName::SyncInEvents ==> answers_recorded(
                m,
                answered,
            ).contains_key(key) && answers_recorded(m, answered)[key] == m[key],
        forall|key: Seq<u8>| #[trigger]
            answers_recorded(m, answered).contains_key((TableName::TransitOut, key))
                && !m.contains_key((TableName::TransitOut, key)) ==> exists|
                i: int,
                k: TransitOutKey,
            |
                #![trigger answered[i].reply.transit_out@.contains(k)]
                0 <= i < answered.len() && answered[i].reply.transit_out@.contains(k) && key
                    == k.connection_id@ + k.event_id@,
{
    let sends = all_sends(answered, answered.len() as int);
    let rows = send_rows(sends);
    let keys = answered.map_values(|a: AnsweredSync| a.event.connection_id@ + a.event.event_id@);
    lemma_all_sends(answered, answered.len() as int);
    law_added_rows_are_there(m, rows, rows.len() as int);
    let mid = rows_added(m, rows, rows.len() as int);
    assert forall|i: int, k: TransitOutKey|
        #![trigger answered[i].reply.transit_out@.contains(k)]
        0 <= i < answered.len() && answered[i].reply.transit_out@.contains(
            k,
        ) implies answers_recorded(m, answered).contains_key(
        (TableName::TransitOut, k.connection_id@ + k.event_id@),
    ) by {
        assert(sends.contains(k));
        let j = choose|j: int| 0 <= j < sends.len() && sends[j] == k;
        assert(rows[j].key == k.connection_id@ + k.event_id@);
        assert(mid.contains_key((rows[j].table, rows[j].key)));
    }
    assert forall|i: int| 0 <= i < answered.len() implies !answers_recorded(
        m,
        answered,
    ).contains_key(
        (
            TableName::SyncInEvents,
            (#[trigger] answered[i]).event.connection_id@ + answered[i].event.event_id@,
        ),
    ) by {
        assert(keys[i] == answered[i].event.connection_id@ + answered[i].event.event_id@);
        assert(keys.contains(keys[i]));
    }
    assert forall|key: Seq<u8>| #[trigger]
        m.contains_key((TableName::SyncInEvents, key)) && (forall|i: int|
            0 <= i < answered.len() ==> (#[trigger] answered[i]).event.connection_id@
                + answered[i].event.event_id@ != key) implies answers_recorded(
        m,
        answered,
    ).contains_key((TableName::SyncInEvents, key)) by {
        if keys.contains(key) {
            let i = choose|i: int| 0 <= i < keys.len() && keys[i] == key;
            let a = answered[i];
        }
        assert(mid.contains_key((TableName::SyncInEvents, key)));
    }
    assert forall|key: (TableName, Seq<u8>)| #[trigger]
        m.contains_key(key) && key.0 != TableName::SyncInEvents implies answers_recorded(
        m,
        answered,
    ).contains_key(key) && answers_recorded(m, answered)[key] == m[key] by {
        assert(mid.contains_key(key));
    }
    assert forall|key: Seq<u8>| #[trigger]
        answers_recorded(m, answered).contains_key((TableName::TransitOut, key))
            && !m.contains_key((TableName::TransitOut, key)) implies exists|
        i: int,
        k: TransitOutKey,
    |
        #![trigger answered[i].reply.transit_out@.contains(k)]
        0 <= i < answered.len() && answered[i].reply.transit_out@.contains(k) && key
            == k.connection_id@ + k.event_id@ by {
        assert(mid.contains_key((TableName::TransitOut, key)));
        let j = choose|j: int|
            0 <= j < rows.len() && (#[trigger] rows[j]).table == TableName::TransitOut
                && rows[j].key == key;
        let k = sends[j];
        assert(sends.contains(k));
        let i = choose|i: int|
            0 <= i < answered.len() && (#[trigger] answered[i]).reply.transit_out@.contains(k);
        assert(answered[i].reply.transit_out@.contains(k));
    }
}

proof fn lemma_response_route(
    m: Rows,
    remote: EventId,
    connections: Seq<EventId>,
    i: int,
    fallback: Option<EventId>,
)
    requires
        0 <= i <= connections.len(),
    ensures
        response_from(m, remote, connections, i, fallback) matches Ok(answer) ==> {
            &&& answer == fallback || (answer matches Some(c) && exists|k: int|
                i <= k < connections.len() && #[trigger] connections[k] == c)
            &&& answer is None ==> fallback is None && forall|k: int|
                i <= k < connections.len() ==> remote_endpoint_of(m, #[trigger] connections[k])
                    != Ok::<EventId, Seq<char>>(remote)
        },
    decreases connections.len() - i,
{
    if i < connections.len() {
        let c = connections[i];
        lemma_response_route(m, remote, connections, i + 1, fallback);
        lemma_response_route(m, remote, connections, i + 1, Some(c));
        if let Ok(answer) = response_from(m, remote, connections, i, fallback) {
            if answer != fallback {
                assert(connections[i] == c);
            }
        }
    }
}

/// An answer takes a route where there is one: with some routed connection to the endpoint that an
/// event came from, the answer goes over a routed connection. Without one it goes back over the
/// connection that the event came by.
pub proof fn law_answer_takes_a_route(m: Rows, inbound: EventId)
    requires
        countable(keys_of(m, TableName::TransportTargets)),
    ensures
        response_connection(m, inbound) matches Ok(answer) ==> {
            let routed = exists|c: EventId|
                #[trigger] m.contains_key((TableName::TransportTargets, c@)) && remote_endpoint_of(
                    m,
                    c,
                ) == remote_endpoint_of(m, inbound);
            &&& routed ==> m.contains_key((TableName::TransportTargets, answer@))
            &&& !routed ==> answer == inbound
        },
{
    law_routed_connections_have_targets(m);
    if let Ok(answer) = response_connection(m, inbound) {
        let remote = remote_endpoint_of(m, inbound)->Ok_0;
        let connections = routed_connections(m)->Ok_0;
        lemma_response_route(m, remote, connections, 0, None);
        lemma_response_remote(m, remote, connections, 0, None);
        if exists|c: EventId|
            #[trigger] m.contains_key((TableName::TransportTargets, c@)) && remote_endpoint_of(m, c)
                == remote_endpoint_of(m, inbound) {
            let c = choose|c: EventId|
                #[trigger] m.contains_key((TableName::TransportTargets, c@)) && remote_endpoint_of(
                    m,
                    c,
                ) == remote_endpoint_of(m, inbound);
            assert(connections.contains(c));
            let k = choose|k: int| 0 <= k < connections.len() && connections[k] == c;
            assert(remote_endpoint_of(m, connections[k]) == Ok::<EventId, Seq<char>>(remote));
            assert(connections.contains(answer));
        } else if response_from(m, remote, connections, 0, None) != Ok::<
            Option<EventId>,
            Seq<char>,
        >(None) {
            assert(connections.contains(answer));
            assert(m.contains_key((TableName::TransportTargets, answer@)));
        }
    }
}

} // verus!
