//! Sync: which peers a round is started with, and where inbound sync work is answered.
//!
//! The index is caught up before anything is said to a peer. A round is started by the side
//! whose endpoint sorts first, and only with peers that share a workspace; what is compared is
//! limited to the workspaces that both belong to. An answer goes to a routed connection with
//! the same remote endpoint, rather not to one of an invite. Handling an inbound sync event is
//! the caller's: it gets what it needs for each one, and hands back what came of it.
use vstd::prelude::*;
use crate::bytes::{
    contains_id, id_lt, lemma_id_ext, lemma_id_of, lemma_lex_irreflexive, lemma_lex_total,
    lemma_lex_transitive, lex_lt, EventId,
};
use crate::connections::{
    connection_ids_with_routes, law_routed_connections_have_targets, remote_endpoint,
    remote_endpoint_of, routed_connections, ConnectionId,
};
use crate::endpoints::{
    is_mutual, lemma_mutual_members, local_endpoint, local_endpoint_of, mutual_workspace_ids,
    mutual_workspaces,
};
use crate::event_store::EventRow;
use crate::events::{proposal_views, EventRegistry, ProposalView, ProposedEvent};
use crate::schema::{claimed_applied_shared, APPLIED_SHARED_EVENTS};
use crate::store::Store;
use crate::sync_closure::{closure_done, ids_of};
use crate::sync_events::{compare_record, outgoing_compare, CompareEvent};
use crate::sync_inbound::{
    drain_connection_in_events, drain_in_events, inbound_views, inbound_work, InboundSync,
    SyncWorkReport,
};
use crate::sync_index::{
    caught_up, day_range, drain_queue, entries_in, law_day_of_a_timestamp,
    law_entries_come_in_time_order, law_events_are_taken_in, law_every_shared_event_is_indexed,
    law_range_holds_its_entries, lemma_filter_next, lemma_kept_in_order, queue_drained,
    queued_entries, root_range, summarize_entries, summary_of, valid_entries, IndexState,
    RangeSummary, SyncIndex, TimestampRange,
};
use crate::table::{countable, lemma_prefix_listed};
use crate::tables::{keys_of, Rows, TableName};
use crate::types::{EventIndexEntry, EventScope};

verus! {

/// How many inbound sync events a tick takes.
pub const DEFAULT_INBOUND_BATCH: usize = 1024;

/// How many queued events are taken into the index at a time.
pub const DEFAULT_INDEX_BATCH: usize = 4096;

/// Which events a round is about.
#[derive(Debug, Clone, Copy, PartialEq, Eq, Structural)]
pub enum SyncSelection {
    /// All of them.
    All,
    /// Those of the day of the newest one.
    Today,
}

/// What taking in queued events counted.
#[derive(Debug, Clone, Copy, PartialEq, Eq)]
pub struct SyncIndexReport {
    pub indexed_events: usize,
}

// ---------------------------------------------------------------------------
// The index
// ---------------------------------------------------------------------------

/// The index, the rows and the count after the queue is drained in batches, until a batch is
/// not full of new events. `fuel` bounds the number of full batches.
pub open spec fn queue_emptied(
    entries: Map<Seq<u8>, EventIndexEntry>,
    m: Rows,
    limit: usize,
    fuel: nat,
) -> Result<(Map<Seq<u8>, EventIndexEntry>, Rows, nat), (Map<Seq<u8>, EventIndexEntry>, Rows, Seq<char>)>
    decreases fuel,
{
    match queue_drained(entries, m, limit) {
        Err(e) => Err((entries, m, e)),
        Ok((after, rest, n)) => if n < limit || fuel == 0 {
            Ok((after, rest, n))
        } else {
            match queue_emptied(after, rest, limit, (fuel - 1) as nat) {
                Err(e) => Err(e),
                Ok((last, left, more)) => Ok((last, left, n + more)),
            }
        },
    }
}

/// A batch size that gets somewhere.
pub open spec fn at_least_one(limit: usize) -> usize {
    if limit == 0 {
        1
    } else {
        limit
    }
}

/// The index, the rows and the count before anything is said to a peer: all shared events of
/// the store are in the index, and the queue is drained.
pub open spec fn index_prepared(
    entries: Map<Seq<u8>, EventIndexEntry>,
    events: Map<Seq<u8>, EventRow>,
    m: Rows,
    limit: usize,
) -> Result<(Map<Seq<u8>, EventIndexEntry>, Rows, nat), (Map<Seq<u8>, EventIndexEntry>, Rows, Seq<char>)> {
    queue_emptied(
        caught_up(entries, events),
        m,
        at_least_one(limit),
        keys_of(m, APPLIED_SHARED_EVENTS).len(),
    )
}

/// A number that a `usize` holds, or else the greatest of these.
pub open spec fn counted(n: nat) -> usize {
    if n <= usize::MAX {
        n as usize
    } else {
        usize::MAX
    }
}

/// What preparing the index leaves and returns.
pub open spec fn preparation(
    i0: IndexState,
    m0: Rows,
    events: Map<Seq<u8>, EventRow>,
    limit: usize,
    i1: IndexState,
    m1: Rows,
    r: Result<SyncIndexReport, Seq<char>>,
) -> bool {
    &&& i1.deps == i0.deps
    &&& match index_prepared(i0.entries, events, m0, limit) {
        Ok((entries, m, n)) => {
            &&& r == Ok::<SyncIndexReport, Seq<char>>(
                SyncIndexReport { indexed_events: counted(n) },
            )
            &&& i1.entries == entries
            &&& m1 == m
        },
        Err((entries, m, e)) => {
            &&& r == Err::<SyncIndexReport, Seq<char>>(e)
            &&& i1.entries == entries
            &&& m1 == m
        },
    }
}

/// A result with its text as characters.
pub open spec fn told<T>(r: Result<T, String>) -> Result<T, Seq<char>> {
    match r {
        Ok(v) => Ok(v),
        Err(e) => Err(e@),
    }
}

proof fn lemma_fewer_keys(before: Rows, after: Rows, k: Seq<u8>)
    requires
        keys_of(before, APPLIED_SHARED_EVENTS).finite(),
        keys_of(after, APPLIED_SHARED_EVENTS).subset_of(keys_of(before, APPLIED_SHARED_EVENTS)),
        keys_of(before, APPLIED_SHARED_EVENTS).contains(k),
        !keys_of(after, APPLIED_SHARED_EVENTS).contains(k),
    ensures
        keys_of(after, APPLIED_SHARED_EVENTS).finite(),
        keys_of(after, APPLIED_SHARED_EVENTS).len() < keys_of(before, APPLIED_SHARED_EVENTS).len(),
{
    let smaller = keys_of(before, APPLIED_SHARED_EVENTS).remove(k);
    assert(keys_of(after, APPLIED_SHARED_EVENTS).subset_of(smaller));
    vstd::set_lib::lemma_len_subset(keys_of(after, APPLIED_SHARED_EVENTS), smaller);
}

/// Catch the index up with the store and drain the queue, in batches of `limit`.
pub fn prepare_index_for_response(store: &mut Store, index: &mut SyncIndex, limit: usize) -> (r:
    Result<SyncIndexReport, String>)
    requires
        old(store).wf(),
        old(index).wf(),
    ensures
        final(store).wf(),
        final(index).wf(),
        final(store)@.events == old(store)@.events,
        preparation(
            old(index)@,
            old(store)@.rows,
            old(store)@.events.events,
            limit,
            final(index)@,
            final(store)@.rows,
            told(r),
        ),
{
    index.catch_up(store);
    let batch: usize = if limit == 0 {
        1
    } else {
        limit
    };
    let ghost start = index@.entries;
    let ghost m0 = store@.rows;
    let fuel0 = store.tables.table_row_count(APPLIED_SHARED_EVENTS);
    let ghost mut total: nat = 0;
    let ghost mut fuel: nat = fuel0 as nat;
    let mut n: usize = 0;
    loop
        invariant
            store.wf(),
            index.wf(),
            batch == at_least_one(limit),
            batch > 0,
            store@.events == old(store)@.events,
            index@.deps == old(index)@.deps,
            keys_of(store@.rows, APPLIED_SHARED_EVENTS).finite(),
            keys_of(store@.rows, APPLIED_SHARED_EVENTS).len() <= fuel,
            n == counted(total),
            queue_emptied(start, m0, batch, fuel0 as nat) == (match queue_emptied(
                index@.entries,
                store@.rows,
                batch,
                fuel,
            ) {
                Err(e) => Err(e),
                Ok((last, left, more)) => Ok((last, left, total + more)),
            }),
            start == caught_up(old(index)@.entries, old(store)@.events.events),
            m0 == old(store)@.rows,
            fuel0 == keys_of(m0, APPLIED_SHARED_EVENTS).len(),
        decreases fuel,
    {
        let ghost before = store@.rows;
        match drain_queue(store, index, batch) {
            Err(e) => {
                return Err(e);
            },
            Ok(k) => {
                n = n.saturating_add(k);
                if k < batch {
                    return Ok(SyncIndexReport { indexed_events: n });
                }
                proof {
                    let gone = choose|x: Seq<u8>| #[trigger]
                        keys_of(before, APPLIED_SHARED_EVENTS).contains(x) && !keys_of(
                            store@.rows,
                            APPLIED_SHARED_EVENTS,
                        ).contains(x);
                    lemma_fewer_keys(before, store@.rows, gone);
                    total = total + k as nat;
                    fuel = (fuel - 1) as nat;
                }
            },
        }
    }
}

/// Take in the first `limit` queued events.
pub fn drain_index_queue_once(store: &mut Store, index: &mut SyncIndex, limit: usize) -> (r: Result<
    SyncIndexReport,
    String,
>)
    requires
        old(store).wf(),
        old(index).wf(),
    ensures
        final(store).wf(),
        final(index).wf(),
        final(store)@.events == old(store)@.events,
        final(index)@.deps == old(index)@.deps,
        match queue_drained(old(index)@.entries, old(store)@.rows, limit) {
            Ok((entries, m, n)) => {
                &&& r == Ok::<SyncIndexReport, String>(
                    SyncIndexReport { indexed_events: n as usize },
                )
                &&& n <= limit
                &&& final(index)@.entries == entries
                &&& final(store)@.rows == m
            },
            Err(e) => {
                &&& r matches Err(x) && x@ == e
                &&& final(index)@ == old(index)@
                &&& final(store)@ == old(store)@
            },
        },
{
    match drain_queue(store, index, limit) {
        Ok(n) => Ok(SyncIndexReport { indexed_events: n }),
        Err(e) => Err(e),
    }
}

// ---------------------------------------------------------------------------
// The range of a round
// ---------------------------------------------------------------------------

/// `t` is the timestamp of the newest shared event, or zero without one.
pub open spec fn is_newest(events: Map<Seq<u8>, EventRow>, t: u64) -> bool {
    &&& forall|id: Seq<u8>|
        events.contains_key(id) && (#[trigger] events[id]).scope is Shared ==> events[id].timestamp
            <= t
    &&& t == 0 || exists|id: Seq<u8>|
        events.contains_key(id) && (#[trigger] events[id]).scope is Shared && events[id].timestamp
            == t
}

/// The timestamp of the newest shared event, or zero without one.
pub open spec fn newest_timestamp(events: Map<Seq<u8>, EventRow>) -> u64 {
    choose|t: u64| is_newest(events, t)
}

proof fn lemma_newest(events: Map<Seq<u8>, EventRow>, t: u64)
    requires
        is_newest(events, t),
    ensures
        newest_timestamp(events) == t,
{
    let u = newest_timestamp(events);
    assert(is_newest(events, u));
    if u < t {
        let id = choose|id: Seq<u8>|
            events.contains_key(id) && (#[trigger] events[id]).scope is Shared
                && events[id].timestamp == t;
        assert(events[id].timestamp <= u);
    }
    if t < u {
        let id = choose|id: Seq<u8>|
            events.contains_key(id) && (#[trigger] events[id]).scope is Shared
                && events[id].timestamp == u;
        assert(events[id].timestamp <= t);
    }
}

/// The range of a selection.
pub open spec fn range_of(events: Map<Seq<u8>, EventRow>, selection: SyncSelection) -> TimestampRange {
    match selection {
        SyncSelection::All => root_range(),
        SyncSelection::Today => day_range(newest_timestamp(events)),
    }
}

/// The range of a selection.
pub fn selected_range(store: &Store, selection: SyncSelection) -> (r: TimestampRange)
    requires
        store.wf(),
    ensures
        r == range_of(store@.events.events, selection),
{
    match selection {
        SyncSelection::All => TimestampRange::root(),
        SyncSelection::Today => {
            let newest: u64 = match store.events.max_timestamp() {
                Some(t) => t,
                None => 0,
            };
            proof {
                lemma_newest(store@.events.events, newest);
            }
            TimestampRange::containing_day(newest)
        },
    }
}

// ---------------------------------------------------------------------------
// What a connection may see
// ---------------------------------------------------------------------------

/// An event belongs to one of some workspaces.
pub open spec fn is_allowed(workspace_ids: Seq<EventId>, e: EventIndexEntry) -> bool {
    e.workspace_id matches Some(w) && workspace_ids.contains(w)
}

/// The events of a range that belong to some workspaces, in the order of timestamps and then
/// ids.
pub open spec fn scoped_entries(
    entries: Map<Seq<u8>, EventIndexEntry>,
    workspace_ids: Seq<EventId>,
    range: TimestampRange,
) -> Seq<EventIndexEntry> {
    entries_in(entries, range).filter(|e: EventIndexEntry| is_allowed(workspace_ids, e))
}

/// The workspaces that a connection is about: those that both ends belong to.
pub open spec fn connection_workspaces(m: Rows, local: EventId, connection_id: EventId) -> Result<
    Seq<EventId>,
    Seq<char>,
> {
    match remote_endpoint_of(m, connection_id) {
        Err(e) => Err(e),
        Ok(remote) => Ok(mutual_workspaces(m, local, remote)),
    }
}

/// What a connection may see of the index.
#[derive(Debug, Clone, PartialEq, Eq)]
pub struct SyncContext {
    pub workspace_ids: Vec<EventId>,
}

impl SyncContext {
    /// What a connection may see.
    pub fn for_connection(store: &Store, local: &EventId, connection_id: &ConnectionId) -> (r: Result<
        SyncContext,
        String,
    >)
        requires
            store.wf(),
        ensures
            match connection_workspaces(store@.rows, *local, *connection_id) {
                Ok(v) => r matches Ok(x) && x.workspace_ids@ == v,
                Err(e) => r matches Err(x) && x@ == e,
            },
    {
        match remote_endpoint(store, connection_id) {
            Err(e) => Err(e),
            Ok(remote) => Ok(
                SyncContext { workspace_ids: mutual_workspace_ids(store, local, &remote) },
            ),
        }
    }

    fn entry_is_allowed(&self, entry: &EventIndexEntry) -> (r: bool)
        ensures
            r == is_allowed(self.workspace_ids@, *entry),
    {
        match &entry.workspace_id {
            Some(w) => contains_id(&self.workspace_ids, w),
            None => false,
        }
    }

    /// Those of some events that the connection may see.
    pub fn fresh_have_entries(&self, entries: &Vec<EventIndexEntry>) -> (r: Vec<EventIndexEntry>)
        ensures
            r@ == entries@.filter(|e: EventIndexEntry| is_allowed(self.workspace_ids@, e)),
    {
        let ghost keep = |e: EventIndexEntry| is_allowed(self.workspace_ids@, e);
        let mut out: Vec<EventIndexEntry> = Vec::new();
        let mut i: usize = 0;
        proof {
            reveal(Seq::filter);
            assert(entries@.take(0).filter(keep) =~= Seq::<EventIndexEntry>::empty());
        }
        while i < entries.len()
            invariant
                i <= entries@.len(),
                keep == (|e: EventIndexEntry| is_allowed(self.workspace_ids@, e)),
                out@ == entries@.take(i as int).filter(keep),
            decreases entries.len() - i,
        {
            proof {
                lemma_filter_next(entries@, keep, i as int);
            }
            if self.entry_is_allowed(&entries[i]) {
                out.push(entries[i]);
            }
            i = i + 1;
        }
        assert(entries@.take(i as int) =~= entries@);
        out
    }

    /// The events of a range that the connection may see.
    pub fn entries_in_range(&self, index: &SyncIndex, range: TimestampRange) -> (r: Vec<
        EventIndexEntry,
    >)
        requires
            index.wf(),
        ensures
            r@ == scoped_entries(index@.entries, self.workspace_ids@, range),
    {
        let entries = index.ids_in_range(range);
        self.fresh_have_entries(&entries)
    }

    /// The summary of a range, as far as the connection may see it.
    pub fn summary(&self, index: &SyncIndex, range: TimestampRange) -> (r: RangeSummary)
        requires
            index.wf(),
        ensures
            r == summary_of(scoped_entries(index@.entries, self.workspace_ids@, range)),
    {
        let entries = self.entries_in_range(index, range);
        summarize_entries(&entries)
    }

    /// The first and the last timestamp of a range, as far as the connection may see it.
    pub fn timestamp_bounds(&self, index: &SyncIndex, range: TimestampRange) -> (r: Option<
        (u64, u64),
    >)
        requires
            index.wf(),
        ensures
            ({
                let s = scoped_entries(index@.entries, self.workspace_ids@, range);
                r == (if s.len() == 0 {
                    None
                } else {
                    Some((s[0].timestamp, s[s.len() - 1].timestamp))
                })
            }),
    {
        let entries = self.entries_in_range(index, range);
        if entries.len() == 0 {
            None
        } else {
            Some((entries[0].timestamp, entries[entries.len() - 1].timestamp))
        }
    }

    /// What some events depend on, as far as the connection may see it.
    pub fn dependency_closure_entries<R: EventRegistry>(
        &self,
        index: &mut SyncIndex,
        store: &Store,
        registry: &R,
        roots: &Vec<EventIndexEntry>,
    ) -> (r: Result<Vec<EventIndexEntry>, String>)
        requires
            old(index).wf(),
            store.wf(),
        ensures
            final(index).wf(),
            exists|all: Result<Vec<EventIndexEntry>, String>|
                {
                    &&& #[trigger] closure_done(
                        registry,
                        old(index)@,
                        final(index)@,
                        store@.events.events,
                        ids_of(roots@),
                        all,
                    )
                    &&& match all {
                        Ok(entries) => r matches Ok(x) && x@ == entries@.filter(
                            |e: EventIndexEntry| is_allowed(self.workspace_ids@, e),
                        ),
                        Err(e) => r == Err::<Vec<EventIndexEntry>, String>(e),
                    }
                },
    {
        let all = index.dependency_closure_entries(store, registry, roots);
        let ghost found = all;
        assert(closure_done(
            registry,
            old(index)@,
            index@,
            store@.events.events,
            ids_of(roots@),
            found,
        ));
        match all {
            Ok(entries) => Ok(self.fresh_have_entries(&entries)),
            Err(e) => Err(e),
        }
    }

    /// Whether the connection may be sent an event: a shared one of its workspaces.
    pub fn can_send_event(&self, store: &Store, event_id: &EventId) -> (r: bool)
        requires
            store.wf(),
        ensures
            r == {
                let events = store@.events.events;
                &&& events.contains_key(event_id@)
                &&& events[event_id@].scope is Shared
                &&& events[event_id@].workspace_id matches Some(w)
                    && self.workspace_ids@.contains(w)
            },
    {
        match store.events.event_facts(event_id) {
            Some((true, Some(w))) => contains_id(&self.workspace_ids, &w),
            _ => false,
        }
    }
}

// ---------------------------------------------------------------------------
// Starting rounds
// ---------------------------------------------------------------------------

/// What starting rounds counted.
#[derive(Debug, Clone, Copy, PartialEq, Eq)]
pub struct SyncStartReport {
    pub sent_events: usize,
}

/// The events that start rounds.
#[derive(Debug, PartialEq, Eq)]
pub struct StartOutput {
    pub value: SyncStartReport,
    pub events: Vec<ProposedEvent>,
}

/// The comparison that starts a round.
pub open spec fn opening(
    entries: Map<Seq<u8>, EventIndexEntry>,
    workspace_ids: Seq<EventId>,
    connection_id: EventId,
    range: TimestampRange,
) -> CompareEvent {
    CompareEvent {
        connection_id,
        range,
        summary: summary_of(scoped_entries(entries, workspace_ids, range)),
        response_requested: true,
    }
}

/// A comparison as a proposal.
pub open spec fn compare_proposal(c: CompareEvent) -> ProposalView {
    ProposalView { record: outgoing_compare(c), receive: None }
}

/// Whether this side starts the rounds with a peer: its endpoint sorts first.
pub open spec fn starts_round(local: EventId, remote: EventId) -> bool {
    lex_lt(local@, remote@)
}

/// The comparisons for the first `n` connections, or what is wrong with one of them.
pub open spec fn openings_upto(
    m: Rows,
    entries: Map<Seq<u8>, EventIndexEntry>,
    local: EventId,
    connections: Seq<EventId>,
    range: TimestampRange,
    n: int,
) -> Result<Seq<CompareEvent>, Seq<char>>
    decreases n,
{
    if n <= 0 {
        Ok(Seq::empty())
    } else {
        match openings_upto(m, entries, local, connections, range, n - 1) {
            Err(e) => Err(e),
            Ok(before) => match remote_endpoint_of(m, connections[n - 1]) {
                Err(e) => Err(e),
                Ok(remote) => {
                    let shared = mutual_workspaces(m, local, remote);
                    if !starts_round(local, remote) || shared.len() == 0 {
                        Ok(before)
                    } else {
                        Ok(before.push(opening(entries, shared, connections[n - 1], range)))
                    }
                },
            },
        }
    }
}

proof fn lemma_openings_fail(
    m: Rows,
    entries: Map<Seq<u8>, EventIndexEntry>,
    local: EventId,
    connections: Seq<EventId>,
    range: TimestampRange,
    i: int,
    n: int,
)
    requires
        i <= n,
        openings_upto(m, entries, local, connections, range, i) is Err,
    ensures
        openings_upto(m, entries, local, connections, range, n) == openings_upto(
            m,
            entries,
            local,
            connections,
            range,
            i,
        ),
    decreases n - i,
{
    if i < n {
        lemma_openings_fail(m, entries, local, connections, range, i, n - 1);
    }
}

/// The comparisons that start rounds with all routed peers, or what is wrong. Without a routed
/// peer there is nothing to start, whoever this peer is.
pub open spec fn openings(
    m: Rows,
    entries: Map<Seq<u8>, EventIndexEntry>,
    range: TimestampRange,
) -> Result<Seq<CompareEvent>, Seq<char>> {
    match routed_connections(m) {
        Err(e) => Err(e),
        Ok(connections) => if connections.len() == 0 {
            Ok(Seq::empty())
        } else {
            match local_endpoint_of(m) {
                Err(e) => Err(e),
                Ok(local) => openings_upto(
                    m,
                    entries,
                    local.endpoint,
                    connections,
                    range,
                    connections.len() as int,
                ),
            }
        },
    }
}

/// An output proposes some comparisons and counts them.
pub open spec fn proposes(out: StartOutput, compares: Seq<CompareEvent>) -> bool {
    &&& out.value.sent_events == compares.len()
    &&& proposal_views(out.events@) == compares.map_values(|c: CompareEvent| compare_proposal(c))
}

/// Start rounds with all routed peers that this side starts them with.
pub fn start(store: &Store, index: &SyncIndex, range: TimestampRange) -> (r: Result<
    StartOutput,
    String,
>)
    requires
        store.wf(),
        index.wf(),
    ensures
        match openings(store@.rows, index@.entries, range) {
            Ok(compares) => r matches Ok(out) && proposes(out, compares),
            Err(e) => r matches Err(x) && x@ == e,
        },
{
    let connections = match connection_ids_with_routes(store) {
        Ok(connections) => connections,
        Err(e) => {
            return Err(e);
        },
    };
    let mut events: Vec<ProposedEvent> = Vec::new();
    let ghost empty = Seq::<CompareEvent>::empty();
    proof {
        assert(proposal_views(events@) =~= empty.map_values(
            |c: CompareEvent| compare_proposal(c),
        ));
    }
    if connections.len() == 0 {
        return Ok(StartOutput { value: SyncStartReport { sent_events: 0 }, events });
    }
    let local = match local_endpoint(store) {
        Ok(local) => local.endpoint,
        Err(e) => {
            return Err(e);
        },
    };
    let ghost m = store@.rows;
    let ghost entries = index@.entries;
    let ghost mut compares = empty;
    let mut i: usize = 0;
    while i < connections.len()
        invariant
            store.wf(),
            index.wf(),
            m == store@.rows,
            entries == index@.entries,
            routed_connections(m) == Ok::<Seq<EventId>, Seq<char>>(connections@),
            connections@.len() > 0,
            local_endpoint_of(m) matches Ok(k) && k.endpoint == local,
            i <= connections@.len(),
            openings_upto(m, entries, local, connections@, range, i as int) == Ok::<
                Seq<CompareEvent>,
                Seq<char>,
            >(compares),
            events@.len() == compares.len(),
            proposal_views(events@) == compares.map_values(|c: CompareEvent| compare_proposal(c)),
        decreases connections.len() - i,
    {
        let connection_id = connections[i];
        proof {
            if openings_upto(m, entries, local, connections@, range, i + 1) is Err {
                lemma_openings_fail(
                    m,
                    entries,
                    local,
                    connections@,
                    range,
                    i + 1,
                    connections@.len() as int,
                );
            }
        }
        let remote = match remote_endpoint(store, &connection_id) {
            Ok(remote) => remote,
            Err(e) => {
                return Err(e);
            },
        };
        if id_lt(&local, &remote) {
            let workspace_ids = mutual_workspace_ids(store, &local, &remote);
            if workspace_ids.len() > 0 {
                let context = SyncContext { workspace_ids };
                let compare = CompareEvent {
                    connection_id,
                    range,
                    summary: context.summary(index, range),
                    response_requested: true,
                };
                let ghost before = events@;
                let event = ProposedEvent::new(compare_record(&compare));
                events.push(event);
                proof {
                    let more = compares.push(compare);
                    assert(proposal_views(events@) =~= proposal_views(before).push(event@));
                    assert(proposal_views(events@) =~= more.map_values(
                        |c: CompareEvent| compare_proposal(c),
                    ));
                    compares = more;
                }
            }
        }
        i = i + 1;
    }
    Ok(StartOutput { value: SyncStartReport { sent_events: events.len() }, events })
}

/// The comparison that starts a round with one peer, whichever side usually starts it. Without
/// a known remote endpoint or a shared workspace there is nothing to start.
pub open spec fn opening_for(
    m: Rows,
    entries: Map<Seq<u8>, EventIndexEntry>,
    connection_id: EventId,
    range: TimestampRange,
) -> Result<Seq<CompareEvent>, Seq<char>> {
    match local_endpoint_of(m) {
        Err(e) => Err(e),
        Ok(local) => match connection_workspaces(m, local.endpoint, connection_id) {
            Err(_) => Ok(Seq::empty()),
            Ok(shared) => if shared.len() == 0 {
                Ok(Seq::empty())
            } else {
                Ok(seq![opening(entries, shared, connection_id, range)])
            },
        },
    }
}

/// Start a round with one peer.
pub fn start_one(
    store: &Store,
    index: &SyncIndex,
    connection_id: &ConnectionId,
    range: TimestampRange,
) -> (r: Result<StartOutput, String>)
    requires
        store.wf(),
        index.wf(),
    ensures
        match opening_for(store@.rows, index@.entries, *connection_id, range) {
            Ok(compares) => r matches Ok(out) && proposes(out, compares),
            Err(e) => r matches Err(x) && x@ == e,
        },
{
    let local = match local_endpoint(store) {
        Ok(local) => local.endpoint,
        Err(e) => {
            return Err(e);
        },
    };
    let mut events: Vec<ProposedEvent> = Vec::new();
    let ghost empty = Seq::<CompareEvent>::empty();
    proof {
        assert(proposal_views(events@) =~= empty.map_values(
            |c: CompareEvent| compare_proposal(c),
        ));
    }
    let context = match SyncContext::for_connection(store, &local, connection_id) {
        Ok(context) => context,
        Err(_) => {
            return Ok(StartOutput { value: SyncStartReport { sent_events: 0 }, events });
        },
    };
    if context.workspace_ids.len() == 0 {
        return Ok(StartOutput { value: SyncStartReport { sent_events: 0 }, events });
    }
    let compare = CompareEvent {
        connection_id: *connection_id,
        range,
        summary: context.summary(index, range),
        response_requested: true,
    };
    let event = ProposedEvent::new(compare_record(&compare));
    events.push(event);
    proof {
        let one = seq![compare];
        assert(proposal_views(events@) =~= one.map_values(|c: CompareEvent| compare_proposal(c)));
    }
    Ok(StartOutput { value: SyncStartReport { sent_events: 1 }, events })
}

// ---------------------------------------------------------------------------
// Work
// ---------------------------------------------------------------------------

/// Work of sync.
#[derive(Debug, Clone, Copy, PartialEq, Eq)]
pub enum Work {
    /// Catch the index up, start rounds, and hand out inbound events.
    Tick { index_limit: usize, inbound_limit: usize, selection: SyncSelection },
    /// Take queued events into the index.
    DrainIndex { limit: usize },
    /// Start rounds with all routed peers.
    Start { selection: SyncSelection },
    /// Start a round with one peer, so that a slow one cannot hold up the others.
    StartForConnection { connection_id: ConnectionId, selection: SyncSelection },
    /// Hand out inbound events.
    DrainIn { limit: usize },
    /// Hand out inbound events of one connection.
    DrainConnectionIn { connection_id: ConnectionId, limit: usize },
}

/// What a tick did, with the inbound events that are to be answered.
#[derive(Debug, PartialEq, Eq)]
pub struct TickStart {
    pub indexed_events: usize,
    pub started: StartOutput,
    pub inbound: Vec<InboundSync>,
}

/// What came of the work. Events that are handed out are answered by the caller, and the
/// answers are recorded with [`record_replies`](crate::sync_inbound::record_replies).
#[derive(Debug, PartialEq, Eq)]
pub enum Output {
    Ticked(TickStart),
    Indexed(SyncIndexReport),
    Started(StartOutput),
    DrainedIn(Vec<InboundSync>),
}

/// What a tick counted.
#[derive(Debug, Clone, Copy, PartialEq, Eq)]
pub struct SyncTickReport {
    pub indexed_events: usize,
    pub started_rounds: usize,
    pub processed_work: usize,
    pub sent_events: usize,
}

/// The counts of a tick whose inbound events were answered.
pub fn tick_report(start: &TickStart, answered: &SyncWorkReport) -> (r: SyncTickReport)
    ensures
        r.indexed_events == start.indexed_events,
        r.started_rounds == start.started.value.sent_events,
        r.processed_work == answered.processed_work,
        r.sent_events == counted(
            start.started.value.sent_events as nat + answered.sent_events as nat,
        ),
{
    SyncTickReport {
        indexed_events: start.indexed_events,
        started_rounds: start.started.value.sent_events,
        processed_work: answered.processed_work,
        sent_events: start.started.value.sent_events.saturating_add(answered.sent_events),
    }
}

/// How many events are taken into the index at a time before some work.
pub open spec fn index_batch(work: Work) -> usize {
    match work {
        Work::Tick { index_limit, .. } => index_limit,
        _ => DEFAULT_INDEX_BATCH,
    }
}

/// What some work says to peers once the index is prepared.
pub open spec fn said(
    m: Rows,
    entries: Map<Seq<u8>, EventIndexEntry>,
    events: Map<Seq<u8>, EventRow>,
    work: Work,
    indexed_events: usize,
    r: Result<Output, String>,
) -> bool {
    match work {
        Work::DrainIndex { .. } => false,
        Work::Start { selection } => match openings(m, entries, range_of(events, selection)) {
            Ok(compares) => r matches Ok(Output::Started(out)) && proposes(out, compares),
            Err(e) => r matches Err(x) && x@ == e,
        },
        Work::StartForConnection { connection_id, selection } => match opening_for(
            m,
            entries,
            connection_id,
            range_of(events, selection),
        ) {
            Ok(compares) => r matches Ok(Output::Started(out)) && proposes(out, compares),
            Err(e) => r matches Err(x) && x@ == e,
        },
        Work::DrainIn { limit } => match inbound_work(m, Seq::empty(), limit) {
            Ok(v) => r matches Ok(Output::DrainedIn(x)) && inbound_views(x@) == v,
            Err(e) => r matches Err(x) && x@ == e,
        },
        Work::DrainConnectionIn { connection_id, limit } => match inbound_work(
            m,
            connection_id@,
            limit,
        ) {
            Ok(v) => r matches Ok(Output::DrainedIn(x)) && inbound_views(x@) == v,
            Err(e) => r matches Err(x) && x@ == e,
        },
        Work::Tick { inbound_limit, selection, .. } => match openings(
            m,
            entries,
            range_of(events, selection),
        ) {
            Err(e) => r matches Err(x) && x@ == e,
            Ok(compares) => match inbound_work(m, Seq::empty(), inbound_limit) {
                Err(e) => r matches Err(x) && x@ == e,
                Ok(v) => {
                    &&& r matches Ok(Output::Ticked(t)) && t.indexed_events == indexed_events
                        && proposes(t.started, compares) && inbound_views(t.inbound@) == v
                },
            },
        },
    }
}

/// What some work leaves and returns. Before anything is said to a peer the index is prepared;
/// where that fails, nothing is said.
pub open spec fn sync_done(
    i0: IndexState,
    m0: Rows,
    events: Map<Seq<u8>, EventRow>,
    work: Work,
    i1: IndexState,
    m1: Rows,
    r: Result<Output, String>,
) -> bool {
    match work {
        Work::DrainIndex { limit } => {
            &&& i1.deps == i0.deps
            &&& match queue_drained(i0.entries, m0, limit) {
                Ok((entries, m, n)) => {
                    &&& r matches Ok(Output::Indexed(report)) && report.indexed_events == n
                    &&& i1.entries == entries
                    &&& m1 == m
                },
                Err(e) => {
                    &&& r matches Err(x) && x@ == e
                    &&& i1 == i0
                    &&& m1 == m0
                },
            }
        },
        _ => {
            &&& i1.deps == i0.deps
            &&& match index_prepared(i0.entries, events, m0, index_batch(work)) {
                Err((entries, m, e)) => {
                    &&& r matches Err(x) && x@ == e
                    &&& i1.entries == entries
                    &&& m1 == m
                },
                Ok((entries, m, n)) => {
                    &&& i1.entries == entries
                    &&& m1 == m
                    &&& said(m, entries, events, work, counted(n), r)
                },
            }
        },
    }
}

/// Run one unit of work.
pub fn run(store: &mut Store, index: &mut SyncIndex, work: Work) -> (r: Result<Output, String>)
    requires
        old(store).wf(),
        old(index).wf(),
    ensures
        final(store).wf(),
        final(index).wf(),
        final(store)@.events == old(store)@.events,
        sync_done(
            old(index)@,
            old(store)@.rows,
            old(store)@.events.events,
            work,
            final(index)@,
            final(store)@.rows,
            r,
        ),
{
    let batch: usize = match work {
        Work::DrainIndex { limit } => {
            return match drain_index_queue_once(store, index, limit) {
                Ok(report) => Ok(Output::Indexed(report)),
                Err(e) => Err(e),
            };
        },
        Work::Tick { index_limit, .. } => index_limit,
        _ => DEFAULT_INDEX_BATCH,
    };
    let prepared = match prepare_index_for_response(store, index, batch) {
        Ok(report) => report,
        Err(e) => {
            return Err(e);
        },
    };
    match work {
        Work::DrainIndex { .. } => Ok(Output::Indexed(prepared)),
        Work::Start { selection } => match start(store, index, selected_range(store, selection)) {
            Ok(out) => Ok(Output::Started(out)),
            Err(e) => Err(e),
        },
        Work::StartForConnection { connection_id, selection } => match start_one(
            store,
            index,
            &connection_id,
            selected_range(store, selection),
        ) {
            Ok(out) => Ok(Output::Started(out)),
            Err(e) => Err(e),
        },
        Work::DrainIn { limit } => match drain_in_events(store, limit) {
            Ok(inbound) => Ok(Output::DrainedIn(inbound)),
            Err(e) => Err(e),
        },
        Work::DrainConnectionIn { connection_id, limit } => match drain_connection_in_events(
            store,
            &connection_id,
            limit,
        ) {
            Ok(inbound) => Ok(Output::DrainedIn(inbound)),
            Err(e) => Err(e),
        },
        Work::Tick { inbound_limit, selection, .. } => {
            let started = match start(store, index, selected_range(store, selection)) {
                Ok(started) => started,
                Err(e) => {
                    return Err(e);
                },
            };
            match drain_in_events(store, inbound_limit) {
                Ok(inbound) => Ok(
                    Output::Ticked(
                        TickStart { indexed_events: prepared.indexed_events, started, inbound },
                    ),
                ),
                Err(e) => Err(e),
            }
        },
    }
}

// ---------------------------------------------------------------------------
// Laws
// ---------------------------------------------------------------------------

/// Of two different peers exactly one starts the rounds.
pub proof fn law_one_side_starts(a: EventId, b: EventId)
    requires
        a != b,
    ensures
        starts_round(a, b) != starts_round(b, a),
{
    lemma_id_ext(a, b);
    lemma_lex_total(a@, b@);
    lemma_lex_irreflexive(a@);
    if lex_lt(a@, b@) && lex_lt(b@, a@) {
        lemma_lex_transitive(a@, b@, a@);
    }
}

/// A peer has one routed connection, to a peer that it shares a workspace with.
pub open spec fn faces(m: Rows, local: EventId, remote: EventId, connection_id: EventId) -> bool {
    &&& routed_connections(m) == Ok::<Seq<EventId>, Seq<char>>(seq![connection_id])
    &&& local_endpoint_of(m) matches Ok(me) && me.endpoint == local
    &&& remote_endpoint_of(m, connection_id) == Ok::<EventId, Seq<char>>(remote)
    &&& mutual_workspaces(m, local, remote).len() > 0
}

/// Of two peers that face each other, the one whose endpoint sorts first starts a round with
/// one comparison, and the other starts none.
pub proof fn law_lower_endpoint_starts_alone(
    lower: Rows,
    higher: Rows,
    a: EventId,
    b: EventId,
    at_lower: EventId,
    at_higher: EventId,
    entries: Map<Seq<u8>, EventIndexEntry>,
    other_entries: Map<Seq<u8>, EventIndexEntry>,
    range: TimestampRange,
)
    requires
        starts_round(a, b),
        faces(lower, a, b, at_lower),
        faces(higher, b, a, at_higher),
    ensures
        openings(lower, entries, range) == Ok::<Seq<CompareEvent>, Seq<char>>(
            seq![opening(entries, mutual_workspaces(lower, a, b), at_lower, range)],
        ),
        openings(higher, other_entries, range) == Ok::<Seq<CompareEvent>, Seq<char>>(Seq::empty()),
        forall|out: StartOutput| #[trigger]
            proposes(out, seq![opening(entries, mutual_workspaces(lower, a, b), at_lower, range)])
                ==> out.value.sent_events == 1 && out.events@.len() == 1,
        forall|out: StartOutput| #[trigger]
            proposes(out, Seq::empty()) ==> out.value.sent_events == 0 && out.events@.len() == 0,
{
    lemma_lex_irreflexive(a@);
    if starts_round(b, a) {
        lemma_lex_transitive(a@, b@, a@);
    }
    reveal_with_fuel(openings_upto, 2);
    let one = opening(entries, mutual_workspaces(lower, a, b), at_lower, range);
    assert(Seq::<CompareEvent>::empty().push(one) =~= seq![one]);
    assert forall|out: StartOutput, compares: Seq<CompareEvent>| #[trigger]
        proposes(out, compares) implies out.events@.len() == compares.len() by {
        assert(proposal_views(out.events@).len() == out.events@.len());
    }
}

/// What a connection sees of a range belongs to workspaces that both ends share.
pub proof fn law_only_shared_workspaces_are_seen(
    entries: Map<Seq<u8>, EventIndexEntry>,
    workspace_ids: Seq<EventId>,
    range: TimestampRange,
    i: int,
)
    requires
        0 <= i < scoped_entries(entries, workspace_ids, range).len(),
    ensures
        is_allowed(workspace_ids, scoped_entries(entries, workspace_ids, range)[i]),
{
    let s = entries_in(entries, range);
    let keep = |e: EventIndexEntry| is_allowed(workspace_ids, e);
    s.lemma_filter_pred(keep, i);
}

/// Whether this side owes a peer a comparison on a connection: the connection is routed, the
/// endpoint of the peer sorts after the local one, and both belong to some workspace.
pub open spec fn owes_opening(m: Rows, local: EventId, connection_id: EventId) -> bool {
    &&& m.contains_key((TableName::TransportTargets, connection_id@))
    &&& m.contains_key((TableName::Connections, connection_id@))
    &&& exists|remote: EventId, w: EventId|
        {
            &&& m[(TableName::Connections, connection_id@)] == remote@
            &&& lex_lt(local@, remote@)
            &&& #[trigger] m.contains_key((TableName::EndpointMemberships, local@ + w@))
            &&& #[trigger] m.contains_key((TableName::EndpointMemberships, remote@ + w@))
        }
}

proof fn lemma_openings_complete(
    m: Rows,
    entries: Map<Seq<u8>, EventIndexEntry>,
    local: EventId,
    connections: Seq<EventId>,
    range: TimestampRange,
    n: int,
)
    requires
        0 <= n <= connections.len(),
        connections.no_duplicates(),
        openings_upto(m, entries, local, connections, range, n) is Ok,
    ensures
        ({
            let compares = openings_upto(m, entries, local, connections, range, n)->Ok_0;
            &&& forall|i: int|
                0 <= i < n ==> (remote_endpoint_of(m, #[trigger] connections[i]) matches Ok(
                    remote,
                ) && (lex_lt(local@, remote@) && mutual_workspaces(m, local, remote).len() > 0
                    <==> exists|j: int|
                    0 <= j < compares.len() && (#[trigger] compares[j]).connection_id
                        == connections[i]))
            &&& forall|j: int|
                0 <= j < compares.len() ==> exists|i: int|
                    0 <= i < n && (#[trigger] compares[j]).connection_id
                        == #[trigger] connections[i]
            &&& forall|j: int|
                0 <= j < compares.len() ==> (#[trigger] compares[j]).range == range
                    && compares[j].response_requested
            &&& forall|j: int, k: int|
                0 <= j < k < compares.len() ==> (#[trigger] compares[j]).connection_id
                    != (#[trigger] compares[k]).connection_id
        }),
    decreases n,
{
    if n > 0 {
        lemma_openings_complete(m, entries, local, connections, range, n - 1);
        let before = openings_upto(m, entries, local, connections, range, n - 1)->Ok_0;
        let compares = openings_upto(m, entries, local, connections, range, n)->Ok_0;
        let remote = remote_endpoint_of(m, connections[n - 1])->Ok_0;
        let last = connections[n - 1];
        assert forall|j: int| 0 <= j < before.len() implies (#[trigger] before[j]).connection_id
            != last by {
            let i = choose|i: int|
                0 <= i < n - 1 && before[j].connection_id == #[trigger] connections[i];
            assert(connections[i] != last);
        }
        let starts = lex_lt(local@, remote@) && mutual_workspaces(m, local, remote).len() > 0;
        if starts {
            assert(compares.drop_last() =~= before);
            assert(compares.last().connection_id == last);
            assert(compares[before.len() as int].connection_id == last);
        } else {
            assert(compares == before);
        }
        assert forall|j: int| 0 <= j < before.len() implies compares[j] == before[j] by {
        }
        assert forall|i: int| 0 <= i < n implies (remote_endpoint_of(
            m,
            #[trigger] connections[i],
        ) matches Ok(r) && (lex_lt(local@, r@) && mutual_workspaces(m, local, r).len() > 0
            <==> exists|j: int|
            0 <= j < compares.len() && (#[trigger] compares[j]).connection_id
                == connections[i])) by {
            if i < n - 1 {
                assert(connections[i] != last);
                if exists|j: int|
                    0 <= j < compares.len() && (#[trigger] compares[j]).connection_id
                        == connections[i] {
                    let j = choose|j: int|
                        0 <= j < compares.len() && (#[trigger] compares[j]).connection_id
                            == connections[i];
                    assert(j < before.len());
                    assert(before[j].connection_id == connections[i]);
                }
                if exists|j: int|
                    0 <= j < before.len() && (#[trigger] before[j]).connection_id
                        == connections[i] {
                    let j = choose|j: int|
                        0 <= j < before.len() && (#[trigger] before[j]).connection_id
                            == connections[i];
                    assert(compares[j].connection_id == connections[i]);
                }
            }
        }
        assert forall|j: int| 0 <= j < compares.len() implies exists|i: int|
            0 <= i < n && (#[trigger] compares[j]).connection_id == #[trigger] connections[i] by {
            if j < before.len() {
                let i = choose|i: int|
                    0 <= i < n - 1 && before[j].connection_id == #[trigger] connections[i];
                assert(compares[j].connection_id == connections[i]);
            }
        }
        assert forall|j: int, k: int| 0 <= j < k < compares.len() implies (
        #[trigger] compares[j]).connection_id != (#[trigger] compares[k]).connection_id by {
            assert(compares[j] == before[j]);
            if k < before.len() {
                assert(compares[k] == before[k]);
            }
        }
    }
}

/// Starting rounds leaves out no peer and adds none: there is exactly one comparison on every
/// connection on which this side owes one, and none on any other.
pub proof fn law_every_owed_round_is_started(
    m: Rows,
    entries: Map<Seq<u8>, EventIndexEntry>,
    range: TimestampRange,
    local: EventId,
)
    requires
        countable(keys_of(m, TableName::TransportTargets)),
        countable(keys_of(m, TableName::EndpointMemberships)),
        local_endpoint_of(m) matches Ok(me) && me.endpoint == local,
        openings(m, entries, range) is Ok,
    ensures
        ({
            let compares = openings(m, entries, range)->Ok_0;
            &&& forall|id: EventId| #[trigger]
                owes_opening(m, local, id) <==> exists|j: int|
                    0 <= j < compares.len() && (#[trigger] compares[j]).connection_id == id
            &&& forall|j: int, k: int|
                0 <= j < k < compares.len() ==> (#[trigger] compares[j]).connection_id
                    != (#[trigger] compares[k]).connection_id
            &&& forall|j: int|
                0 <= j < compares.len() ==> (#[trigger] compares[j]).range == range
                    && compares[j].response_requested
        }),
{
    let connections = routed_connections(m)->Ok_0;
    let compares = openings(m, entries, range)->Ok_0;
    law_routed_connections_have_targets(m);
    if connections.len() > 0 {
        lemma_openings_complete(
            m,
            entries,
            local,
            connections,
            range,
            connections.len() as int,
        );
    }
    assert forall|id: EventId| #[trigger]
        owes_opening(m, local, id) <==> exists|j: int|
            0 <= j < compares.len() && (#[trigger] compares[j]).connection_id == id by {
        if connections.contains(id) {
            let i = choose|i: int| 0 <= i < connections.len() && connections[i] == id;
            let remote = remote_endpoint_of(m, id)->Ok_0;
            assert(remote_endpoint_of(m, connections[i]) is Ok);
            lemma_remote_row(m, id);
            lemma_prefix_listed(keys_of(m, TableName::EndpointMemberships), local@);
            lemma_mutual_members(m, local, remote);
            let shared = mutual_workspaces(m, local, remote);
            if owes_opening(m, local, id) {
                let (r, w) = choose|r: EventId, w: EventId|
                    {
                        &&& m[(TableName::Connections, id@)] == r@
                        &&& lex_lt(local@, r@)
                        &&& #[trigger] m.contains_key(
                            (TableName::EndpointMemberships, local@ + w@),
                        )
                        &&& #[trigger] m.contains_key((TableName::EndpointMemberships, r@ + w@))
                    };
                lemma_id_ext(r, remote);
                assert(is_mutual(m, local, remote, w));
                assert(shared.contains(w));
                assert(shared.len() > 0);
            }
            if lex_lt(local@, remote@) && shared.len() > 0 {
                assert(shared.contains(shared[0]));
                assert(is_mutual(m, local, remote, shared[0]));
                assert(owes_opening(m, local, id));
            }
        } else {
            if exists|j: int| 0 <= j < compares.len() && (#[trigger] compares[j]).connection_id
                == id {
                let j = choose|j: int|
                    0 <= j < compares.len() && (#[trigger] compares[j]).connection_id == id;
                let i = choose|i: int|
                    0 <= i < connections.len() && compares[j].connection_id
                        == #[trigger] connections[i];
                assert(connections.contains(id));
            }
        }
    }
}

/// The remote endpoint of a connection is what its row holds.
proof fn lemma_remote_row(m: Rows, connection_id: EventId)
    requires
        remote_endpoint_of(m, connection_id) is Ok,
    ensures
        m.contains_key((TableName::Connections, connection_id@)),
        m[(TableName::Connections, connection_id@)] == (remote_endpoint_of(
            m,
            connection_id,
        )->Ok_0)@,
{
    lemma_id_of(
        m[(TableName::Connections, connection_id@)],
        remote_endpoint_of(m, connection_id)->Ok_0,
    );
}

/// A round with one peer is started whichever side usually starts it: with exactly one
/// comparison, on that connection, where both ends belong to some workspace, and else with none.
pub proof fn law_round_with_one_peer(
    m: Rows,
    entries: Map<Seq<u8>, EventIndexEntry>,
    connection_id: EventId,
    range: TimestampRange,
    local: EventId,
    remote: EventId,
)
    requires
        countable(keys_of(m, TableName::EndpointMemberships)),
        local_endpoint_of(m) matches Ok(me) && me.endpoint == local,
        remote_endpoint_of(m, connection_id) == Ok::<EventId, Seq<char>>(remote),
    ensures
        opening_for(m, entries, connection_id, range) matches Ok(compares) && {
            &&& compares.len() == 1 <==> exists|w: EventId|
                #[trigger] m.contains_key((TableName::EndpointMemberships, local@ + w@))
                    && m.contains_key((TableName::EndpointMemberships, remote@ + w@))
            &&& compares.len() <= 1
            &&& compares.len() == 1 ==> compares[0].connection_id == connection_id
                && compares[0].range == range && compares[0].response_requested
        },
{
    lemma_prefix_listed(keys_of(m, TableName::EndpointMemberships), local@);
    lemma_mutual_members(m, local, remote);
    let shared = mutual_workspaces(m, local, remote);
    if shared.len() > 0 {
        assert(shared.contains(shared[0]));
        assert(is_mutual(m, local, remote, shared[0]));
    }
    if exists|w: EventId|
        #[trigger] m.contains_key((TableName::EndpointMemberships, local@ + w@))
            && m.contains_key((TableName::EndpointMemberships, remote@ + w@)) {
        let w = choose|w: EventId|
            #[trigger] m.contains_key((TableName::EndpointMemberships, local@ + w@))
                && m.contains_key((TableName::EndpointMemberships, remote@ + w@));
        assert(is_mutual(m, local, remote, w));
        assert(shared.contains(w));
    }
}

/// What a connection sees of a range: every event of the range that belongs to one of the shared
/// workspaces, and no other.
pub proof fn law_all_shared_events_are_seen(
    entries: Map<Seq<u8>, EventIndexEntry>,
    workspace_ids: Seq<EventId>,
    range: TimestampRange,
)
    requires
        entries.dom().finite(),
        valid_entries(entries),
    ensures
        forall|id: Seq<u8>, w: EventId|
            #![trigger entries.contains_key(id), workspace_ids.contains(w)]
            entries.contains_key(id) && entries[id].workspace_id == Some(w)
                && workspace_ids.contains(w) && range.start <= entries[id].timestamp
                && entries[id].timestamp <= range.end ==> scoped_entries(
                entries,
                workspace_ids,
                range,
            ).contains(entries[id]),
        forall|e: EventIndexEntry| #[trigger]
            scoped_entries(entries, workspace_ids, range).contains(e) ==> {
                &&& entries.contains_key(e.event_id@)
                &&& entries[e.event_id@] == e
                &&& range.start <= e.timestamp
                &&& e.timestamp <= range.end
                &&& e.workspace_id is Some
                &&& workspace_ids.contains(e.workspace_id->Some_0)
            },
{
    law_range_holds_its_entries(entries, range);
    let some = entries_in(entries, range);
    let keep = |e: EventIndexEntry| is_allowed(workspace_ids, e);
    assert forall|id: Seq<u8>, w: EventId|
        #![trigger entries.contains_key(id), workspace_ids.contains(w)]
        entries.contains_key(id) && entries[id].workspace_id == Some(w) && workspace_ids.contains(w)
            && range.start <= entries[id].timestamp && entries[id].timestamp
            <= range.end implies scoped_entries(entries, workspace_ids, range).contains(
        entries[id],
    ) by {
        let i = choose|i: int| 0 <= i < some.len() && some[i] == entries[id];
        some.lemma_filter_contains(keep, i);
    }
    assert forall|e: EventIndexEntry| #[trigger]
        scoped_entries(entries, workspace_ids, range).contains(e) implies {
        &&& entries.contains_key(e.event_id@)
        &&& entries[e.event_id@] == e
        &&& range.start <= e.timestamp
        &&& e.timestamp <= range.end
        &&& e.workspace_id is Some
        &&& workspace_ids.contains(e.workspace_id->Some_0)
    } by {
        let kept = scoped_entries(entries, workspace_ids, range);
        let j = choose|j: int| 0 <= j < kept.len() && kept[j] == e;
        some.lemma_filter_pred(keep, j);
        some.lemma_filter_contains_rev(keep, e);
    }
}

proof fn lemma_emptying_only_adds(
    entries: Map<Seq<u8>, EventIndexEntry>,
    m: Rows,
    limit: usize,
    fuel: nat,
)
    ensures
        queue_emptied(entries, m, limit, fuel) matches Ok((after, rest, n)) ==> {
            &&& forall|id: Seq<u8>| #[trigger]
                entries.contains_key(id) ==> after.contains_key(id) && after[id] == entries[id]
            &&& forall|key: (TableName, Seq<u8>)| #[trigger]
                rest.contains_key(key) ==> m.contains_key(key) && rest[key] == m[key]
            &&& forall|key: (TableName, Seq<u8>)| #[trigger]
                m.contains_key(key) && key.0 != APPLIED_SHARED_EVENTS ==> rest.contains_key(key)
        },
    decreases fuel,
{
    if let Ok((after, rest, n)) = queue_drained(entries, m, limit) {
        let more = queued_entries(claimed_applied_shared(m, limit)->Ok_0);
        law_events_are_taken_in(entries, more, more.len() as int);
        assert forall|key: (TableName, Seq<u8>)| #[trigger]
            m.contains_key(key) && key.0 != APPLIED_SHARED_EVENTS implies rest.contains_key(
            key,
        ) by {}
        assert forall|key: (TableName, Seq<u8>)| #[trigger] rest.contains_key(key) implies {
            &&& m.contains_key(key)
            &&& rest[key] == m[key]
        } by {}
        if !(n < limit || fuel == 0) {
            lemma_emptying_only_adds(after, rest, limit, (fuel - 1) as nat);
        }
    }
}

/// Before anything is said to a peer the index is complete: every shared event of the store is in
/// it, and what it had before stays. Nothing but entries of the queue is taken off the rows.
pub proof fn law_prepared_index_is_complete(
    entries: Map<Seq<u8>, EventIndexEntry>,
    events: Map<Seq<u8>, EventRow>,
    m: Rows,
    limit: usize,
)
    ensures
        index_prepared(entries, events, m, limit) matches Ok((after, rest, n)) ==> {
            &&& forall|id: EventId|
                #![trigger events.contains_key(id@)]
                events.contains_key(id@) && events[id@].scope == EventScope::Shared
                    ==> after.contains_key(id@) && (entries.contains_key(id@) || after[id@] == (
                EventIndexEntry {
                    event_id: id,
                    timestamp: events[id@].timestamp,
                    workspace_id: events[id@].workspace_id,
                }))
            &&& forall|id: Seq<u8>| #[trigger]
                entries.contains_key(id) ==> after.contains_key(id) && after[id] == entries[id]
            &&& forall|key: (TableName, Seq<u8>)| #[trigger]
                m.contains_key(key) && key.0 != APPLIED_SHARED_EVENTS ==> rest.contains_key(key)
                    && rest[key] == m[key]
        },
{
    law_every_shared_event_is_indexed(entries, events);
    let known = caught_up(entries, events);
    lemma_emptying_only_adds(
        known,
        m,
        at_least_one(limit),
        keys_of(m, APPLIED_SHARED_EVENTS).len(),
    );
    if let Ok((after, rest, n)) = index_prepared(entries, events, m, limit) {
        assert forall|id: EventId|
            #![trigger events.contains_key(id@)]
            events.contains_key(id@) && events[id@].scope
                == EventScope::Shared implies after.contains_key(id@) && (entries.contains_key(id@)
            || after[id@] == (EventIndexEntry {
            event_id: id,
            timestamp: events[id@].timestamp,
            workspace_id: events[id@].workspace_id,
        })) by {
            assert(known.contains_key(id@));
        }
        assert forall|id: Seq<u8>| #[trigger] entries.contains_key(id) implies after.contains_key(
            id,
        ) && after[id] == entries[id] by {
            assert(known.contains_key(id));
        }
    }
}

/// What a round is about: with everything selected it is about all timestamps; with today selected
/// it is about the day of the newest shared event.
pub proof fn law_selection_covers_its_events(events: Map<Seq<u8>, EventRow>, newest: Seq<u8>)
    requires
        events.contains_key(newest),
        events[newest].scope == EventScope::Shared,
        forall|id: Seq<u8>| #[trigger]
            events.contains_key(id) && events[id].scope == EventScope::Shared
                ==> events[id].timestamp <= events[newest].timestamp,
    ensures
        forall|t: u64|
            #![trigger day_range(t)]
            range_of(events, SyncSelection::All).start <= t && t <= range_of(
                events,
                SyncSelection::All,
            ).end,
        range_of(events, SyncSelection::Today) == day_range(events[newest].timestamp),
        range_of(events, SyncSelection::Today).start <= events[newest].timestamp,
        events[newest].timestamp <= range_of(events, SyncSelection::Today).end,
{
    let t = events[newest].timestamp;
    assert(is_newest(events, t));
    lemma_newest(events, t);
    law_day_of_a_timestamp(t);
}

/// What a connection sees of a range comes in the order of timestamps, so that its first and its
/// last entry bound all of them.
pub proof fn law_seen_events_come_in_time_order(
    entries: Map<Seq<u8>, EventIndexEntry>,
    workspace_ids: Seq<EventId>,
    range: TimestampRange,
)
    requires
        entries.dom().finite(),
    ensures
        ({
            let seen = scoped_entries(entries, workspace_ids, range);
            forall|i: int|
                0 <= i < seen.len() ==> seen[0].timestamp <= (#[trigger] seen[i]).timestamp
                    <= seen[seen.len() - 1].timestamp
        }),
{
    let some = entries_in(entries, range);
    let keep = |e: EventIndexEntry| is_allowed(workspace_ids, e);
    assert forall|a: int, b: int| 0 <= a < b < some.len() implies (#[trigger] some[a]).timestamp
        <= (#[trigger] some[b]).timestamp by {
        law_entries_come_in_time_order(entries, range, a, b);
    }
    lemma_kept_in_order(some, keep);
    let seen = scoped_entries(entries, workspace_ids, range);
    assert forall|i: int| 0 <= i < seen.len() implies seen[0].timestamp <= (
    #[trigger] seen[i]).timestamp <= seen[seen.len() - 1].timestamp by {
        if 0 < i {
            assert(seen[0].timestamp <= seen[i].timestamp);
        }
        if i < seen.len() - 1 {
            assert(seen[i].timestamp <= seen[seen.len() - 1].timestamp);
        }
    }
}

} // verus!
