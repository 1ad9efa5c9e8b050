//! Sending queued events over their connections.
//!
//! The queue names events by connection and id. For each route the events are resolved to their
//! bytes and put into batches of bounded size; an entry whose event is gone is dropped. Wrapping
//! a batch and sending it is the caller's. An entry leaves the queue only once the frame that
//! carries its event was sent.
use vstd::prelude::*;
use crate::bytes::{
    copy_bytes, has_prefix, id_with, lemma_id_ext, lemma_id_of, lemma_id_with, EventId,
};
use crate::connections::{
    addressed_views, remote_endpoint, remote_endpoint_of, routes, routes_of, ConnectionId,
};
use crate::endpoints::{local_endpoint, local_endpoint_of};
use crate::schema::{
    decode_transit_out_key, transit_out_key_of, transit_out_prefix, TransitOutKey, TRANSIT_OUT,
};
use crate::store::{Store, StoreState};
use crate::table::{countable, key_views, Table};
use crate::tables::{
    keys_of, law_first_rows_come_first, pair_views, rows_listed, rows_removed, Rows, TableName,
};
use crate::text::{prefixed, text};

verus! {

/// How many bytes of events a frame holds, unless one event alone has more.
pub const TRANSIT_TARGET_PLAINTEXT_BYTES: usize = 33_554_432;

/// How many queued events of a connection are looked at in one go.
pub const TRANSIT_OUT_LIMIT: usize = 4096;

/// What exchanging routes counted.
#[derive(Debug, Clone, Copy, PartialEq, Eq)]
pub struct RouteExchangeReport {
    pub routes_synced: usize,
    pub failed_routes: usize,
    pub sent_events: usize,
    pub received_events: usize,
}

impl Default for RouteExchangeReport {
    fn default() -> (r: RouteExchangeReport)
        ensures
            r == (RouteExchangeReport {
                routes_synced: 0,
                failed_routes: 0,
                sent_events: 0,
                received_events: 0,
            }),
    {
        RouteExchangeReport {
            routes_synced: 0,
            failed_routes: 0,
            sent_events: 0,
            received_events: 0,
        }
    }
}

// ---------------------------------------------------------------------------
// Resolving queued events
// ---------------------------------------------------------------------------

/// A queued event with its bytes.
#[derive(Debug, Clone, PartialEq, Eq)]
pub struct TransitOutItem {
    pub key: TransitOutKey,
    pub event_bytes: Vec<u8>,
}

/// What a queued event says.
pub struct ItemView {
    pub key: TransitOutKey,
    pub event_bytes: Seq<u8>,
}

impl View for TransitOutItem {
    type V = ItemView;

    open spec fn view(&self) -> ItemView {
        ItemView { key: self.key, event_bytes: self.event_bytes@ }
    }
}

/// What some queued events say.
pub open spec fn item_views(items: Seq<TransitOutItem>) -> Seq<ItemView> {
    items.map_values(|i: TransitOutItem| i@)
}

/// The bytes of an event: those of the event store, or else those of a connection-scoped event.
pub open spec fn resolved(s: StoreState, event_id: EventId) -> Option<Seq<u8>> {
    if s.events.events.contains_key(event_id@) {
        Some(s.events.events[event_id@].canonical_bytes)
    } else if s.rows.contains_key((TableName::ConnectionScopedEvents, event_id@)) {
        Some(s.rows[(TableName::ConnectionScopedEvents, event_id@)])
    } else {
        None
    }
}

fn resolve_transit_out_event_bytes(store: &Store, event_id: &EventId) -> (r: Option<Vec<u8>>)
    requires
        store.wf(),
    ensures
        match resolved(store@, *event_id) {
            Some(v) => r matches Some(x) && x@ == v,
            None => r is None,
        },
{
    match store.events.event_bytes(event_id) {
        Some(bytes) => Some(bytes),
        None => store.tables.table_row(TableName::ConnectionScopedEvents, event_id.as_slice()),
    }
}

/// The events that the first `n` queue entries name, and the entries whose event is gone.
pub open spec fn resolved_upto(s: StoreState, rows: Seq<(Seq<u8>, Seq<u8>)>, n: int) -> Result<
    (Seq<ItemView>, Seq<Seq<u8>>),
    Seq<char>,
>
    decreases n,
{
    if n <= 0 {
        Ok((Seq::empty(), Seq::empty()))
    } else {
        match resolved_upto(s, rows, n - 1) {
            Err(e) => Err(e),
            Ok((items, stale)) => match transit_out_key_of(rows[n - 1].0) {
                Err(e) => Err(e),
                Ok(key) => match resolved(s, key.event_id) {
                    None => Ok((items, stale.push(rows[n - 1].0))),
                    Some(event_bytes) => Ok((items.push(ItemView { key, event_bytes }), stale)),
                },
            },
        }
    }
}

proof fn lemma_resolved_fails(s: StoreState, rows: Seq<(Seq<u8>, Seq<u8>)>, m: int, n: int)
    requires
        m <= n,
        resolved_upto(s, rows, m) is Err,
    ensures
        resolved_upto(s, rows, n) == resolved_upto(s, rows, m),
    decreases n - m,
{
    if m < n {
        lemma_resolved_fails(s, rows, m, n - 1);
    }
}

/// The events that are queued for a connection, and the entries whose event is gone.
pub open spec fn queued_for(s: StoreState, connection_id: EventId) -> Result<
    (Seq<ItemView>, Seq<Seq<u8>>),
    Seq<char>,
> {
    let rows = rows_listed(s.rows, TRANSIT_OUT, connection_id@, TRANSIT_OUT_LIMIT);
    resolved_upto(s, rows, rows.len() as int)
}

/// The events that are queued for a connection.
#[derive(Debug, Clone, PartialEq, Eq)]
pub struct TransitOutDrain {
    pub items: Vec<TransitOutItem>,
    /// Entries whose event is gone.
    pub stale_keys: Vec<Vec<u8>>,
}

/// Resolve the events that are queued for a connection.
pub fn transit_out_items_for_connection(store: &Store, connection_id: &ConnectionId) -> (r: Result<
    TransitOutDrain,
    String,
>)
    requires
        store.wf(),
    ensures
        match queued_for(store@, *connection_id) {
            Ok((items, stale)) => r matches Ok(d) && item_views(d.items@) == items && key_views(
                d.stale_keys@,
            ) == stale,
            Err(e) => r matches Err(x) && x@ == e,
        },
{
    let prefix = transit_out_prefix(*connection_id);
    let rows = store.tables.table_rows_with_key_prefix(
        TRANSIT_OUT,
        prefix.as_slice(),
        TRANSIT_OUT_LIMIT,
    );
    let ghost s = store@;
    let ghost listed = rows_listed(s.rows, TRANSIT_OUT, connection_id@, TRANSIT_OUT_LIMIT);
    let mut items: Vec<TransitOutItem> = Vec::new();
    let mut stale_keys: Vec<Vec<u8>> = Vec::new();
    let mut i: usize = 0;
    proof {
        assert(item_views(items@) =~= Seq::empty());
        assert(key_views(stale_keys@) =~= Seq::empty());
        assert(listed.len() == rows@.len());
    }
    while i < rows.len()
        invariant
            store.wf(),
            s == store@,
            i <= rows@.len(),
            pair_views(rows@) == listed,
            listed == rows_listed(s.rows, TRANSIT_OUT, connection_id@, TRANSIT_OUT_LIMIT),
            listed.len() == rows@.len(),
            resolved_upto(s, listed, i as int) == Ok::<(Seq<ItemView>, Seq<Seq<u8>>), Seq<char>>(
                (item_views(items@), key_views(stale_keys@)),
            ),
        decreases rows.len() - i,
    {
        proof {
            assert(pair_views(rows@)[i as int] == (rows@[i as int].0@, rows@[i as int].1@));
            if resolved_upto(s, listed, i + 1) is Err {
                lemma_resolved_fails(s, listed, i + 1, listed.len() as int);
            }
        }
        let key = match decode_transit_out_key(rows[i].0.as_slice()) {
            Ok(key) => key,
            Err(e) => {
                return Err(e);
            },
        };
        match resolve_transit_out_event_bytes(store, &key.event_id) {
            Some(event_bytes) => {
                let ghost before = items@;
                let item = TransitOutItem { key, event_bytes };
                items.push(item);
                assert(item_views(items@) =~= item_views(before).push(item@));
            },
            None => {
                let ghost before = stale_keys@;
                let stale = copy_bytes(rows[i].0.as_slice());
                stale_keys.push(stale);
                assert(key_views(stale_keys@) =~= key_views(before).push(stale@));
            },
        }
        i = i + 1;
    }
    Ok(TransitOutDrain { items, stale_keys })
}

// ---------------------------------------------------------------------------
// Batches
// ---------------------------------------------------------------------------

/// How many bytes of a frame an event takes.
pub open spec fn item_size(i: ItemView) -> int {
    4 + i.event_bytes.len() as int
}

/// How many bytes of a frame some events take.
pub open spec fn batch_size(items: Seq<ItemView>) -> int
    decreases items.len(),
{
    if items.len() == 0 {
        0
    } else {
        batch_size(items.drop_last()) + item_size(items.last())
    }
}

/// The first `n` events in batches: the finished ones, and the one that is being filled. An
/// event starts a new batch where it would make the current one too large.
pub open spec fn batches_upto(items: Seq<ItemView>, n: int) -> (Seq<Seq<ItemView>>, Seq<ItemView>)
    decreases n,
{
    if n <= 0 {
        (Seq::empty(), Seq::empty())
    } else {
        let (done, current) = batches_upto(items, n - 1);
        let item = items[n - 1];
        if current.len() > 0 && batch_size(current) + item_size(item)
            > TRANSIT_TARGET_PLAINTEXT_BYTES {
            (done.push(current), seq![item])
        } else {
            (done, current.push(item))
        }
    }
}

/// All events in batches.
pub open spec fn batches_of(items: Seq<ItemView>) -> Seq<Seq<ItemView>> {
    let (done, current) = batches_upto(items, items.len() as int);
    if current.len() > 0 {
        done.push(current)
    } else {
        done
    }
}

/// What some batches hold.
pub open spec fn batch_views(batches: Seq<Vec<TransitOutItem>>) -> Seq<Seq<ItemView>> {
    batches.map_values(|b: Vec<TransitOutItem>| item_views(b@))
}

proof fn lemma_batch_push(items: Seq<ItemView>, item: ItemView)
    ensures
        batch_size(items.push(item)) == batch_size(items) + item_size(item),
{
    assert(items.push(item).drop_last() =~= items);
}

proof fn lemma_batch_size_positive(items: Seq<ItemView>)
    ensures
        batch_size(items) >= 0,
    decreases items.len(),
{
    if items.len() > 0 {
        lemma_batch_size_positive(items.drop_last());
    }
}

/// Put events into batches.
pub fn batch_transit_out_items(items: Vec<TransitOutItem>) -> (r: Vec<Vec<TransitOutItem>>)
    ensures
        batch_views(r@) == batches_of(item_views(items@)),
{
    let ghost all = item_views(items@);
    let mut batches: Vec<Vec<TransitOutItem>> = Vec::new();
    let mut current: Vec<TransitOutItem> = Vec::new();
    let mut current_bytes: usize = 0;
    let mut i: usize = 0;
    proof {
        assert(batch_views(batches@) =~= Seq::empty());
        assert(item_views(current@) =~= Seq::empty());
    }
    while i < items.len()
        invariant
            i <= items@.len(),
            all == item_views(items@),
            batches_upto(all, i as int) == (batch_views(batches@), item_views(current@)),
            current_bytes as int == (if batch_size(item_views(current@)) <= usize::MAX {
                batch_size(item_views(current@))
            } else {
                usize::MAX as int
            }),
        decreases items.len() - i,
    {
        let ghost cur = item_views(current@);
        assert(all[i as int] == items@[i as int]@);
        assert(cur.len() == current@.len());
        let item = TransitOutItem {
            key: items[i].key,
            event_bytes: copy_bytes(items[i].event_bytes.as_slice()),
        };
        let size: usize = (4usize).saturating_add(item.event_bytes.len());
        proof {
            lemma_batch_size_positive(cur);
        }
        if current.len() > 0 && current_bytes.saturating_add(size)
            > TRANSIT_TARGET_PLAINTEXT_BYTES {
            let ghost before = batches@;
            let ghost full = current@;
            batches.push(current);
            proof {
                assert(batch_views(batches@) =~= batch_views(before).push(item_views(full)));
                lemma_batch_push(Seq::empty(), item@);
            }
            current = Vec::new();
            current_bytes = size;
            current.push(item);
            assert(item_views(current@) =~= seq![item@]);
            assert(seq![item@] =~= Seq::<ItemView>::empty().push(item@));
        } else {
            let ghost before = current@;
            current_bytes = current_bytes.saturating_add(size);
            current.push(item);
            proof {
                assert(item_views(current@) =~= item_views(before).push(item@));
                lemma_batch_push(cur, item@);
            }
        }
        i = i + 1;
    }
    assert(all.len() == items@.len());
    if current.len() > 0 {
        let ghost before = batches@;
        let ghost last = current@;
        batches.push(current);
        assert(batch_views(batches@) =~= batch_views(before).push(item_views(last)));
    }
    batches
}

/// Some batches one after the other.
pub open spec fn joined(batches: Seq<Seq<ItemView>>) -> Seq<ItemView>
    decreases batches.len(),
{
    if batches.len() == 0 {
        Seq::empty()
    } else {
        joined(batches.drop_last()) + batches.last()
    }
}

proof fn lemma_joined_push(batches: Seq<Seq<ItemView>>, b: Seq<ItemView>)
    ensures
        joined(batches.push(b)) == joined(batches) + b,
{
    assert(batches.push(b).drop_last() =~= batches);
}

/// Whether a batch may go out: it is not empty, and is within the bound unless it is one event.
pub open spec fn is_frame(b: Seq<ItemView>) -> bool {
    b.len() > 0 && (b.len() == 1 || batch_size(b) <= TRANSIT_TARGET_PLAINTEXT_BYTES)
}

proof fn lemma_batches_upto(items: Seq<ItemView>, n: int)
    requires
        0 <= n <= items.len(),
    ensures
        ({
            let (done, current) = batches_upto(items, n);
            &&& joined(done) + current == items.take(n)
            &&& forall|i: int| 0 <= i < done.len() ==> is_frame(#[trigger] done[i])
            &&& current.len() == 0 || is_frame(current)
            &&& current.len() == 0 ==> n == 0
        }),
    decreases n,
{
    if n > 0 {
        lemma_batches_upto(items, n - 1);
        let (done, current) = batches_upto(items, n - 1);
        let item = items[n - 1];
        assert(items.take(n) =~= items.take(n - 1).push(item));
        lemma_batch_push(current, item);
        lemma_joined_push(done, current);
        let (after, next) = batches_upto(items, n);
        if after == done {
            assert(joined(done) + next =~= items.take(n));
        }
        assert(joined(after) + next =~= items.take(n));
    } else {
        assert(joined(Seq::empty()) + Seq::<ItemView>::empty() =~= items.take(0));
    }
}

/// Batching loses no event and keeps their order, and every batch may go out.
pub proof fn law_batches_hold_all_events(items: Seq<ItemView>)
    ensures
        joined(batches_of(items)) == items,
        forall|i: int| 0 <= i < batches_of(items).len() ==> is_frame(#[trigger] batches_of(items)[i]),
{
    lemma_batches_upto(items, items.len() as int);
    let (done, current) = batches_upto(items, items.len() as int);
    lemma_joined_push(done, current);
    assert(items.take(items.len() as int) =~= items);
    if current.len() == 0 {
        assert(joined(done) =~= items);
    }
}

/// A batch could not have taken the first event of the next one.
pub open spec fn is_full_before(b: Seq<ItemView>, next: Seq<ItemView>) -> bool {
    next.len() > 0 && batch_size(b) + item_size(next[0]) > TRANSIT_TARGET_PLAINTEXT_BYTES
}

proof fn lemma_batches_greedy(items: Seq<ItemView>, n: int)
    requires
        0 <= n <= items.len(),
    ensures
        ({
            let (done, current) = batches_upto(items, n);
            &&& forall|i: int|
                0 <= i < done.len() - 1 ==> is_full_before(#[trigger] done[i], done[i + 1])
            &&& done.len() > 0 ==> is_full_before(done.last(), current)
            &&& n > 0 ==> current.len() > 0
        }),
    decreases n,
{
    if n > 0 {
        lemma_batches_greedy(items, n - 1);
    }
}

/// Batching is greedy: no batch could have taken the first event of the next one.
pub proof fn law_batches_are_full(items: Seq<ItemView>)
    ensures
        forall|i: int|
            0 <= i < batches_of(items).len() - 1 ==> is_full_before(
                #[trigger] batches_of(items)[i],
                batches_of(items)[i + 1],
            ),
{
    lemma_batches_greedy(items, items.len() as int);
}

// ---------------------------------------------------------------------------
// Routes
// ---------------------------------------------------------------------------

/// What is to be sent over one route.
#[derive(Debug, Clone, PartialEq, Eq)]
pub struct OutboundRoute {
    pub connection_id: ConnectionId,
    pub addr: Vec<u8>,
    pub remote: EventId,
    pub batches: Vec<Vec<TransitOutItem>>,
}

/// What is to be sent over one route.
pub struct OutboundView {
    pub connection_id: EventId,
    pub addr: Seq<u8>,
    pub remote: EventId,
    pub batches: Seq<Seq<ItemView>>,
}

impl View for OutboundRoute {
    type V = OutboundView;

    open spec fn view(&self) -> OutboundView {
        OutboundView {
            connection_id: self.connection_id,
            addr: self.addr@,
            remote: self.remote,
            batches: batch_views(self.batches@),
        }
    }
}

/// What is to be sent over some routes.
pub open spec fn outbound_views(routes: Seq<OutboundRoute>) -> Seq<OutboundView> {
    routes.map_values(|r: OutboundRoute| r@)
}

/// The store without the queue entries of a connection whose event is gone, and what is to be
/// sent over the connection. On failure the store may have lost such entries too.
pub open spec fn route_drained(s: StoreState, route: (EventId, Seq<u8>)) -> Result<
    (StoreState, Option<OutboundView>),
    (StoreState, Seq<char>),
> {
    match queued_for(s, route.0) {
        Err(e) => Err((s, e)),
        Ok((items, stale)) => {
            let after = StoreState {
                rows: rows_removed(s.rows, TRANSIT_OUT, stale.to_set()),
                ..s
            };
            if items.len() == 0 {
                Ok((after, None))
            } else {
                match remote_endpoint_of(after.rows, route.0) {
                    Err(e) => Err((after, e)),
                    Ok(remote) => Ok(
                        (
                            after,
                            Some(
                                OutboundView {
                                    connection_id: route.0,
                                    addr: route.1,
                                    remote,
                                    batches: batches_of(items),
                                },
                            ),
                        ),
                    ),
                }
            }
        },
    }
}

/// The store and what is to be sent after the first `n` routes.
pub open spec fn routes_drained(s: StoreState, routes: Seq<(EventId, Seq<u8>)>, n: int) -> Result<
    (StoreState, Seq<OutboundView>),
    (StoreState, Seq<char>),
>
    decreases n,
{
    if n <= 0 {
        Ok((s, Seq::empty()))
    } else {
        match routes_drained(s, routes, n - 1) {
            Err(e) => Err(e),
            Ok((t, out)) => match route_drained(t, routes[n - 1]) {
                Err(e) => Err(e),
                Ok((u, None)) => Ok((u, out)),
                Ok((u, Some(v))) => Ok((u, out.push(v))),
            },
        }
    }
}

proof fn lemma_routes_fail(s: StoreState, routes: Seq<(EventId, Seq<u8>)>, m: int, n: int)
    requires
        m <= n,
        routes_drained(s, routes, m) is Err,
    ensures
        routes_drained(s, routes, n) == routes_drained(s, routes, m),
    decreases n - m,
{
    if m < n {
        lemma_routes_fail(s, routes, m, n - 1);
    }
}

/// The store and what is to be sent over all routes. Without a route nothing is asked of the
/// local endpoint.
pub open spec fn outbound(s: StoreState) -> Result<
    (StoreState, Seq<OutboundView>),
    (StoreState, Seq<char>),
> {
    match routes_of(s.rows) {
        Err(e) => Err((s, e)),
        Ok(routes) => if routes.len() == 0 {
            Ok((s, Seq::empty()))
        } else {
            match local_endpoint_of(s.rows) {
                Err(e) => Err((s, e)),
                Ok(_) => routes_drained(s, routes, routes.len() as int),
            }
        },
    }
}

fn drain_route(store: &mut Store, connection_id: &ConnectionId, addr: &Vec<u8>) -> (r: Result<
    Option<OutboundRoute>,
    String,
>)
    requires
        old(store).wf(),
    ensures
        final(store).wf(),
        match route_drained(old(store)@, (*connection_id, addr@)) {
            Ok((s, out)) => {
                &&& final(store)@ == s
                &&& match out {
                    Some(v) => r matches Ok(Some(x)) && x@ == v,
                    None => r matches Ok(None),
                }
            },
            Err((s, e)) => {
                &&& final(store)@ == s
                &&& r matches Err(x) && x@ == e
            },
        },
{
    let drain = match transit_out_items_for_connection(store, connection_id) {
        Ok(drain) => drain,
        Err(e) => {
            return Err(e);
        },
    };
    let _ = store.tables.delete_table_rows(TRANSIT_OUT, &drain.stale_keys);
    assert(item_views(drain.items@).len() == drain.items@.len());
    if drain.items.len() == 0 {
        return Ok(None);
    }
    let remote = match remote_endpoint(store, connection_id) {
        Ok(remote) => remote,
        Err(e) => {
            return Err(e);
        },
    };
    Ok(
        Some(
            OutboundRoute {
                connection_id: *connection_id,
                addr: copy_bytes(addr.as_slice()),
                remote,
                batches: batch_transit_out_items(drain.items),
            },
        ),
    )
}

/// Gather what is to be sent over all routes, and drop queue entries whose event is gone.
pub fn drain_transit_out_routes(store: &mut Store) -> (r: Result<Vec<OutboundRoute>, String>)
    requires
        old(store).wf(),
    ensures
        final(store).wf(),
        match outbound(old(store)@) {
            Ok((s, out)) => {
                &&& final(store)@ == s
                &&& r matches Ok(x) && outbound_views(x@) == out
            },
            Err((s, e)) => {
                &&& final(store)@ == s
                &&& r matches Err(x) && x@ == "drain out: "@ + e
            },
        },
{
    let all = match routes(store) {
        Ok(all) => all,
        Err(e) => {
            return Err(prefixed("drain out: ", e));
        },
    };
    let ghost views = addressed_views(all@);
    let mut out: Vec<OutboundRoute> = Vec::new();
    proof {
        assert(views.len() == all@.len());
        assert(outbound_views(out@) =~= Seq::empty());
    }
    if all.len() == 0 {
        return Ok(out);
    }
    match local_endpoint(store) {
        Ok(_) => {},
        Err(e) => {
            return Err(prefixed("drain out: ", e));
        },
    }
    let ghost s = store@;
    let mut i: usize = 0;
    while i < all.len()
        invariant
            store.wf(),
            s == old(store)@,
            i <= all@.len(),
            views == addressed_views(all@),
            views.len() == all@.len(),
            views.len() > 0,
            routes_of(s.rows) == Ok::<Seq<(EventId, Seq<u8>)>, Seq<char>>(views),
            local_endpoint_of(s.rows) is Ok,
            routes_drained(s, views, i as int) == Ok::<
                (StoreState, Seq<OutboundView>),
                (StoreState, Seq<char>),
            >((store@, outbound_views(out@))),
        decreases all.len() - i,
    {
        proof {
            assert(views[i as int] == (all@[i as int].id, all@[i as int].addr@));
            if routes_drained(s, views, i + 1) is Err {
                lemma_routes_fail(s, views, i + 1, views.len() as int);
            }
        }
        match drain_route(store, &all[i].id, &all[i].addr) {
            Ok(None) => {},
            Ok(Some(route)) => {
                let ghost before = out@;
                out.push(route);
                assert(outbound_views(out@) =~= outbound_views(before).push(route@));
            },
            Err(e) => {
                return Err(prefixed("drain out: ", e));
            },
        }
        i = i + 1;
    }
    Ok(out)
}

/// The keys that the frames of a route carry, frame by frame.
pub fn frame_keys(route: &OutboundRoute) -> (r: Vec<Vec<Vec<u8>>>)
    ensures
        r@.len() == route.batches@.len(),
        forall|i: int|
            0 <= i < r@.len() ==> key_views((#[trigger] r@[i])@) == item_keys(
                item_views(route.batches@[i]@),
            ),
{
    let mut out: Vec<Vec<Vec<u8>>> = Vec::new();
    let mut i: usize = 0;
    while i < route.batches.len()
        invariant
            i <= route.batches@.len(),
            out@.len() == i,
            forall|j: int|
                0 <= j < i ==> key_views((#[trigger] out@[j])@) == item_keys(
                    item_views(route.batches@[j]@),
                ),
        decreases route.batches.len() - i,
    {
        let batch = &route.batches[i];
        let ghost items = item_views(batch@);
        let mut keys: Vec<Vec<u8>> = Vec::new();
        let mut j: usize = 0;
        assert(key_views(keys@) =~= item_keys(items.take(0)));
        while j < batch.len()
            invariant
                j <= batch@.len(),
                items == item_views(batch@),
                key_views(keys@) == item_keys(items.take(j as int)),
            decreases batch.len() - j,
        {
            let key = batch[j].key.to_bytes();
            let ghost before = keys@;
            keys.push(key);
            proof {
                assert(items[j as int] == batch@[j as int]@);
                assert(key_views(keys@) =~= key_views(before).push(key@));
                assert(items.take(j + 1) =~= items.take(j as int).push(items[j as int]));
                assert(key_views(keys@) =~= item_keys(items.take(j + 1)));
            }
            j = j + 1;
        }
        proof {
            assert(items.take(j as int) =~= items);
        }
        out.push(keys);
        i = i + 1;
    }
    out
}

/// How many events the first `n` frames carry, by their keys.
pub open spec fn events_carried(keys: Seq<Vec<Vec<u8>>>, n: int) -> usize
    decreases n,
{
    if n <= 0 {
        0
    } else {
        plus(events_carried(keys, n - 1), keys[n - 1]@.len() as usize)
    }
}

/// Count the events that some frames carry, by their keys.
pub fn carried_events(keys: &Vec<Vec<Vec<u8>>>) -> (n: usize)
    ensures
        n == events_carried(keys@, keys@.len() as int),
{
    let mut n: usize = 0;
    let mut i: usize = 0;
    while i < keys.len()
        invariant
            i <= keys@.len(),
            n == events_carried(keys@, i as int),
        decreases keys.len() - i,
    {
        n = n.saturating_add(keys[i].len());
        i = i + 1;
    }
    n
}

/// The queue keys of some events.
pub open spec fn item_keys(items: Seq<ItemView>) -> Seq<Seq<u8>> {
    items.map_values(|i: ItemView| i.key.connection_id@ + i.key.event_id@)
}

// ---------------------------------------------------------------------------
// What was sent
// ---------------------------------------------------------------------------

/// The queue keys that a frame carries.
#[derive(Debug, Clone, PartialEq, Eq)]
pub struct CarriedKeys {
    pub keys: Vec<Vec<u8>>,
}

impl View for CarriedKeys {
    type V = Seq<Seq<u8>>;

    open spec fn view(&self) -> Seq<Seq<u8>> {
        key_views(self.keys@)
    }
}

/// What each frame carries.
pub type SentRows = Table<CarriedKeys>;

/// What the frame of a row carries: nothing unless it is known.
pub open spec fn carried(m: Map<Seq<u8>, Seq<Seq<u8>>>, row: Seq<u8>) -> Seq<Seq<u8>> {
    if m.contains_key(row) {
        m[row]
    } else {
        Seq::empty()
    }
}

/// What each frame carries once the last `n` rows of `rows` carry some keys.
pub open spec fn remembered(
    m: Map<Seq<u8>, Seq<Seq<u8>>>,
    rows: Seq<Seq<u8>>,
    keys: Seq<Seq<Seq<u8>>>,
    n: int,
) -> Map<Seq<u8>, Seq<Seq<u8>>>
    decreases n,
{
    if n <= 0 {
        m
    } else {
        let p = remembered(m, rows, keys, n - 1);
        let row = rows[rows.len() - keys.len() + n - 1];
        p.insert(row, carried(p, row) + keys[n - 1])
    }
}

/// Some lists of keys.
pub open spec fn key_lists(keys: Seq<Vec<Vec<u8>>>) -> Seq<Seq<Seq<u8>>> {
    keys.map_values(|k: Vec<Vec<u8>>| key_views(k@))
}

fn append_keys(keys: &mut Vec<Vec<u8>>, more: &Vec<Vec<u8>>)
    ensures
        key_views(final(keys)@) == key_views(old(keys)@) + key_views(more@),
{
    let ghost before = key_views(keys@);
    let ghost all = key_views(more@);
    let mut i: usize = 0;
    assert(key_views(keys@) =~= before + all.take(0));
    while i < more.len()
        invariant
            i <= more@.len(),
            all == key_views(more@),
            key_views(keys@) == before + all.take(i as int),
        decreases more.len() - i,
    {
        let key = copy_bytes(more[i].as_slice());
        let ghost then_keys = keys@;
        keys.push(key);
        proof {
            assert(all[i as int] == key@);
            assert(key_views(keys@) =~= key_views(then_keys).push(key@));
            assert(all.take(i + 1) =~= all.take(i as int).push(key@));
            assert(key_views(keys@) =~= before + all.take(i + 1));
        }
        i = i + 1;
    }
    assert(all.take(i as int) =~= all);
}

/// Remember which queue keys the last of some frames carry. Fails where there are fewer frames
/// than lists of keys.
pub fn remember_sent_rows(
    sent: &mut SentRows,
    rows: &Vec<Vec<u8>>,
    transit_out_keys: &Vec<Vec<Vec<u8>>>,
) -> (r: Result<(), String>)
    requires
        old(sent).wf(),
    ensures
        final(sent).wf(),
        if transit_out_keys@.len() > rows@.len() {
            &&& r matches Err(e) && e@ == "more out keys than outbound network rows"@
            &&& final(sent)@ == old(sent)@
        } else {
            &&& r is Ok
            &&& final(sent)@ == remembered(
                old(sent)@,
                key_views(rows@),
                key_lists(transit_out_keys@),
                transit_out_keys@.len() as int,
            )
        },
{
    if transit_out_keys.len() > rows.len() {
        return Err(text("more out keys than outbound network rows"));
    }
    let ghost names = key_views(rows@);
    let ghost lists = key_lists(transit_out_keys@);
    let first: usize = rows.len() - transit_out_keys.len();
    let mut i: usize = 0;
    while i < transit_out_keys.len()
        invariant
            sent.wf(),
            i <= transit_out_keys@.len(),
            transit_out_keys@.len() <= rows.len(),
            first == rows.len() - transit_out_keys@.len(),
            names == key_views(rows@),
            lists == key_lists(transit_out_keys@),
            names.len() == rows@.len(),
            lists.len() == transit_out_keys@.len(),
            sent@ == remembered(old(sent)@, names, lists, i as int),
        decreases transit_out_keys.len() - i,
    {
        let row = &rows[first + i];
        assert(names[first + i] == row@);
        assert(lists[i as int] == key_views(transit_out_keys@[i as int]@));
        let ghost p = sent@;
        let mut keys: Vec<Vec<u8>> = Vec::new();
        assert(key_views(keys@) =~= Seq::empty());
        match sent.remove(row.as_slice()) {
            Some(known) => {
                keys = known.keys;
            },
            None => {},
        }
        append_keys(&mut keys, &transit_out_keys[i]);
        sent.put(copy_bytes(row.as_slice()), CarriedKeys { keys });
        proof {
            assert(sent@ =~= p.insert(row@, carried(p, row@) + lists[i as int]));
        }
        i = i + 1;
    }
    Ok(())
}

/// The keys that the first `n` rows carry, and what is still remembered after they were taken.
pub open spec fn taken(m: Map<Seq<u8>, Seq<Seq<u8>>>, rows: Seq<Seq<u8>>, n: int) -> (
    Map<Seq<u8>, Seq<Seq<u8>>>,
    Seq<Seq<u8>>,
)
    decreases n,
{
    if n <= 0 {
        (m, Seq::empty())
    } else {
        let (p, keys) = taken(m, rows, n - 1);
        (p.remove(rows[n - 1]), keys + carried(p, rows[n - 1]))
    }
}

/// Take the queue entries whose frames were sent off the queue.
pub fn mark_sent_network_rows(store: &mut Store, rows: &Vec<Vec<u8>>, sent: &mut SentRows)
    requires
        old(store).wf(),
        old(sent).wf(),
    ensures
        final(store).wf(),
        final(sent).wf(),
        ({
            let (left, keys) = taken(old(sent)@, key_views(rows@), rows@.len() as int);
            &&& final(sent)@ == left
            &&& final(store)@ == (StoreState {
                rows: rows_removed(old(store)@.rows, TRANSIT_OUT, keys.to_set()),
                ..old(store)@
            })
        }),
{
    let ghost names = key_views(rows@);
    let mut keys: Vec<Vec<u8>> = Vec::new();
    let mut i: usize = 0;
    assert(key_views(keys@) =~= Seq::empty());
    while i < rows.len()
        invariant
            sent.wf(),
            i <= rows@.len(),
            names == key_views(rows@),
            taken(old(sent)@, names, i as int) == (sent@, key_views(keys@)),
        decreases rows.len() - i,
    {
        assert(names[i as int] == rows@[i as int]@);
        let ghost p = sent@;
        match sent.remove(rows[i].as_slice()) {
            Some(known) => {
                append_keys(&mut keys, &known.keys);
            },
            None => {
                assert(key_views(keys@) + carried(p, names[i as int]) =~= key_views(keys@));
                assert(p.remove(names[i as int]) =~= p);
            },
        }
        i = i + 1;
    }
    mark_transit_out_sent(store, &keys);
}

/// Take some entries off the queue.
pub fn mark_transit_out_sent(store: &mut Store, sent_transit_out: &Vec<Vec<u8>>)
    requires
        old(store).wf(),
    ensures
        final(store).wf(),
        final(store)@ == (StoreState {
            rows: rows_removed(
                old(store)@.rows,
                TRANSIT_OUT,
                key_views(sent_transit_out@).to_set(),
            ),
            ..old(store)@
        }),
{
    let _ = store.tables.delete_table_rows(TRANSIT_OUT, sent_transit_out);
}

/// Remember the address that a connection is dialled at, unless one is known.
pub fn remember_connection_route(store: &mut Store, connection_id: &ConnectionId, addr: &[u8])
    requires
        old(store).wf(),
    ensures
        final(store).wf(),
        final(store)@ == (StoreState {
            rows: route_remembered(old(store)@.rows, *connection_id, addr@),
            ..old(store)@
        }),
{
    let _ = store.tables.insert_row(
        TableName::TransportTargets,
        connection_id.as_slice(),
        copy_bytes(addr),
    );
}

/// The rows with the address of a connection, unless one is known.
pub open spec fn route_remembered(m: Rows, connection_id: EventId, addr: Seq<u8>) -> Rows {
    let key = (TableName::TransportTargets, connection_id@);
    if m.contains_key(key) {
        m
    } else {
        m.insert(key, addr)
    }
}

// ---------------------------------------------------------------------------
// What came of it
// ---------------------------------------------------------------------------

/// What came of sending something to an address.
#[derive(Debug, Clone, PartialEq, Eq)]
pub enum SendOutcome {
    Sent { sent_events: usize, received_events: usize },
    Failed { cause: String },
}

/// What is said of a failure with an address.
pub open spec fn route_error_text(what: Seq<char>, addr: Seq<char>, cause: Seq<char>) -> Seq<char> {
    what + addr + ": "@ + cause
}

/// What is said of a failure with an address.
pub fn route_error(what: &str, addr: &str, cause: String) -> (r: String)
    ensures
        r@ == route_error_text(what@, addr@, cause@),
{
    text(what).concat(addr).concat(": ").concat(cause.as_str())
}

/// A count that stays at its greatest value.
pub open spec fn plus(a: usize, b: usize) -> usize {
    if a + b <= usize::MAX {
        (a + b) as usize
    } else {
        usize::MAX
    }
}

/// Count what came of sending over a route. A failure is counted, or returned where the caller
/// asked for that.
pub fn note_route(
    report: &mut RouteExchangeReport,
    outcome: SendOutcome,
    addr: &str,
    fail_on_route_error: bool,
) -> (r: Result<(), String>)
    ensures
        match outcome {
            SendOutcome::Sent { sent_events, received_events } => {
                &&& r is Ok
                &&& *final(report) == (RouteExchangeReport {
                    routes_synced: plus(old(report).routes_synced, 1),
                    sent_events: plus(old(report).sent_events, sent_events),
                    received_events: plus(old(report).received_events, received_events),
                    ..*old(report)
                })
            },
            SendOutcome::Failed { cause } => if fail_on_route_error {
                &&& r matches Err(e) && e@ == route_error_text(
                    "exchange outbound route "@,
                    addr@,
                    cause@,
                )
                &&& *final(report) == *old(report)
            } else {
                &&& r is Ok
                &&& *final(report) == (RouteExchangeReport {
                    failed_routes: plus(old(report).failed_routes, 1),
                    ..*old(report)
                })
            },
        },
{
    match outcome {
        SendOutcome::Sent { sent_events, received_events } => {
            report.routes_synced = report.routes_synced.saturating_add(1);
            report.sent_events = report.sent_events.saturating_add(sent_events);
            report.received_events = report.received_events.saturating_add(received_events);
            Ok(())
        },
        SendOutcome::Failed { cause } => {
            if fail_on_route_error {
                return Err(route_error("exchange outbound route ", addr, cause));
            }
            report.failed_routes = report.failed_routes.saturating_add(1);
            Ok(())
        },
    }
}

// ---------------------------------------------------------------------------
// Laws
// ---------------------------------------------------------------------------

/// Marking frames as sent takes nothing off the queue that they did not carry.
pub proof fn law_unsent_entries_stay(m: Rows, keys: Seq<Seq<u8>>, k: Seq<u8>)
    requires
        m.contains_key((TRANSIT_OUT, k)),
        !keys.contains(k),
    ensures
        rows_removed(m, TRANSIT_OUT, keys.to_set()).contains_key((TRANSIT_OUT, k)),
{
}

/// The bytes of an event that goes out are those of the event store where it is stored there, and
/// else those that are kept for the connection.
pub proof fn law_event_bytes_are_found(s: StoreState, event_id: EventId)
    ensures
        resolved(s, event_id) is Some <==> s.events.events.contains_key(event_id@)
            || s.rows.contains_key((TableName::ConnectionScopedEvents, event_id@)),
        s.events.events.contains_key(event_id@) ==> resolved(s, event_id) == Some(
            s.events.events[event_id@].canonical_bytes,
        ),
        !s.events.events.contains_key(event_id@) && s.rows.contains_key(
            (TableName::ConnectionScopedEvents, event_id@),
        ) ==> resolved(s, event_id) == Some(
            s.rows[(TableName::ConnectionScopedEvents, event_id@)],
        ),
{
}

proof fn lemma_resolved_all(s: StoreState, rows: Seq<(Seq<u8>, Seq<u8>)>, n: int)
    requires
        0 <= n <= rows.len(),
    ensures
        resolved_upto(s, rows, n) matches Ok((items, stale)) ==> {
            &&& forall|i: int, k: TransitOutKey|
                #![trigger rows[i], resolved(s, k.event_id)]
                0 <= i < n && rows[i].0 == k.connection_id@ + k.event_id@ ==> (match resolved(
                    s,
                    k.event_id,
                ) {
                    Some(event_bytes) => items.contains(ItemView { key: k, event_bytes }),
                    None => stale.contains(rows[i].0),
                })
            &&& forall|item: ItemView| #[trigger]
                items.contains(item) ==> resolved(s, item.key.event_id) == Some(item.event_bytes)
                    && exists|i: int|
                    0 <= i < n && (#[trigger] rows[i]).0 == item.key.connection_id@
                        + item.key.event_id@
            &&& forall|k: Seq<u8>| #[trigger]
                stale.contains(k) ==> k.len() == 64 && resolved(s, id_with(k.skip(32))) is None
                    && exists|i: int| 0 <= i < n && (#[trigger] rows[i]).0 == k
        },
    decreases n,
{
    if n > 0 {
        lemma_resolved_all(s, rows, n - 1);
        if let Ok((items, stale)) = resolved_upto(s, rows, n) {
            let (before, gone) = resolved_upto(s, rows, n - 1)->Ok_0;
            let last = rows[n - 1].0;
            let key = transit_out_key_of(last)->Ok_0;
            lemma_id_of(last.take(32), key.connection_id);
            lemma_id_of(last.skip(32), key.event_id);
            assert(last =~= last.take(32) + last.skip(32));
            assert forall|item: ItemView| before.contains(item) implies items.contains(item) by {
                let j = choose|j: int| 0 <= j < before.len() && before[j] == item;
                assert(items[j] == item);
            }
            assert forall|k: Seq<u8>| gone.contains(k) implies stale.contains(k) by {
                let j = choose|j: int| 0 <= j < gone.len() && gone[j] == k;
                assert(stale[j] == k);
            }
            assert forall|i: int, k: TransitOutKey|
                #![trigger rows[i], resolved(s, k.event_id)]
                0 <= i < n && rows[i].0 == k.connection_id@ + k.event_id@ implies (match resolved(
                s,
                k.event_id,
            ) {
                Some(event_bytes) => items.contains(ItemView { key: k, event_bytes }),
                None => stale.contains(rows[i].0),
            }) by {
                if i == n - 1 {
                    assert(last.take(32) =~= k.connection_id@);
                    assert(last.skip(32) =~= k.event_id@);
                    lemma_id_with(k.connection_id);
                    lemma_id_with(k.event_id);
                    assert(key == k);
                    match resolved(s, k.event_id) {
                        Some(event_bytes) => {
                            assert(items[before.len() as int] == (ItemView { key: k, event_bytes }));
                        },
                        None => {
                            assert(stale[gone.len() as int] == last);
                        },
                    }
                }
            }
            assert forall|item: ItemView| #[trigger] items.contains(item) implies resolved(
                s,
                item.key.event_id,
            ) == Some(item.event_bytes) && exists|i: int|
                0 <= i < n && (#[trigger] rows[i]).0 == item.key.connection_id@
                    + item.key.event_id@ by {
                let j = choose|j: int| 0 <= j < items.len() && items[j] == item;
                if j < before.len() {
                    assert(before[j] == item);
                    assert(before.contains(item));
                    let i = choose|i: int|
                        0 <= i < n - 1 && (#[trigger] rows[i]).0 == item.key.connection_id@
                            + item.key.event_id@;
                    assert(rows[i].0 == item.key.connection_id@ + item.key.event_id@);
                } else {
                    assert(rows[n - 1].0 == item.key.connection_id@ + item.key.event_id@);
                }
            }
            assert forall|k: Seq<u8>| #[trigger] stale.contains(k) implies k.len() == 64
                && resolved(s, id_with(k.skip(32))) is None && exists|i: int|
                0 <= i < n && (#[trigger] rows[i]).0 == k by {
                let j = choose|j: int| 0 <= j < stale.len() && stale[j] == k;
                if j < gone.len() {
                    assert(gone[j] == k);
                    assert(gone.contains(k));
                    let i = choose|i: int| 0 <= i < n - 1 && (#[trigger] rows[i]).0 == k;
                    assert(rows[i].0 == k);
                } else {
                    assert(rows[n - 1].0 == k);
                }
            }
        }
    }
}

/// What is gathered for a connection: with not more than 4096 entries on the queue, each event that
/// is queued for the connection and whose bytes are here comes out with its bytes, and each entry
/// whose event is gone is named. Nothing else comes out.
pub proof fn law_queue_of_a_connection(s: StoreState, connection_id: EventId)
    requires
        countable(keys_of(s.rows, TableName::TransitOut)),
        keys_of(s.rows, TableName::TransitOut).len() <= 4096,
    ensures
        queued_for(s, connection_id) matches Ok((items, stale)) ==> {
            &&& forall|event_id: EventId|
                #![trigger resolved(s, event_id)]
                s.rows.contains_key((TableName::TransitOut, connection_id@ + event_id@)) ==> (
                match resolved(s, event_id) {
                    Some(event_bytes) => items.contains(
                        ItemView { key: TransitOutKey { connection_id, event_id }, event_bytes },
                    ),
                    None => stale.contains(connection_id@ + event_id@),
                })
            &&& forall|item: ItemView| #[trigger]
                items.contains(item) ==> item.key.connection_id == connection_id
                    && s.rows.contains_key(
                    (TableName::TransitOut, connection_id@ + item.key.event_id@),
                ) && resolved(s, item.key.event_id) == Some(item.event_bytes)
            &&& forall|k: Seq<u8>| #[trigger]
                stale.contains(k) ==> has_prefix(k, connection_id@) && s.rows.contains_key(
                    (TableName::TransitOut, k),
                ) && k.len() == 64 && resolved(s, id_with(k.skip(32))) is None
        },
{
    let t = TableName::TransitOut;
    let m = s.rows;
    let rows = rows_listed(m, t, connection_id@, TRANSIT_OUT_LIMIT);
    law_first_rows_come_first(m, t, connection_id@, TRANSIT_OUT_LIMIT);
    lemma_resolved_all(s, rows, rows.len() as int);
    if let Ok((items, stale)) = queued_for(s, connection_id) {
        assert forall|event_id: EventId|
            #![trigger resolved(s, event_id)]
            m.contains_key((t, connection_id@ + event_id@)) implies (match resolved(s, event_id) {
            Some(event_bytes) => items.contains(
                ItemView { key: TransitOutKey { connection_id, event_id }, event_bytes },
            ),
            None => stale.contains(connection_id@ + event_id@),
        }) by {
            let k = connection_id@ + event_id@;
            let key = TransitOutKey { connection_id, event_id };
            assert(k.take(32) =~= connection_id@);
            assert(has_prefix(k, connection_id@));
            assert(rows.contains((k, m[(t, k)])));
            let i = choose|i: int| 0 <= i < rows.len() && rows[i] == (k, m[(t, k)]);
            assert(rows[i].0 == key.connection_id@ + key.event_id@);
        }
        assert forall|item: ItemView| #[trigger]
            items.contains(item) implies item.key.connection_id == connection_id && m.contains_key(
            (t, connection_id@ + item.key.event_id@),
        ) && resolved(s, item.key.event_id) == Some(item.event_bytes) by {
            let k = item.key.connection_id@ + item.key.event_id@;
            assert(k.take(32) =~= item.key.connection_id@);
            lemma_id_ext(item.key.connection_id, connection_id);
        }
    }
}

/// What a drain of the routes may change: entries of the queue whose event is gone, nothing else.
pub open spec fn only_stale_entries_went(s: StoreState, t: StoreState) -> bool {
    &&& t.events == s.events
    &&& forall|k: (TableName, Seq<u8>)| #[trigger]
        t.rows.contains_key(k) ==> s.rows.contains_key(k) && t.rows[k] == s.rows[k]
    &&& forall|k: (TableName, Seq<u8>)| #[trigger]
        s.rows.contains_key(k) && !t.rows.contains_key(k) ==> k.0 == TableName::TransitOut
            && k.1.len() == 64 && resolved(s, id_with(k.1.skip(32))) is None
}

proof fn lemma_fewer_entries(s: StoreState, t: StoreState)
    requires
        countable(keys_of(s.rows, TableName::TransitOut)),
        keys_of(s.rows, TableName::TransitOut).len() <= 4096,
        only_stale_entries_went(s, t),
    ensures
        countable(keys_of(t.rows, TableName::TransitOut)),
        keys_of(t.rows, TableName::TransitOut).len() <= 4096,
        forall|event_id: EventId| #[trigger] resolved(t, event_id) == resolved(s, event_id),
{
    let (a, b) = (keys_of(s.rows, TableName::TransitOut), keys_of(t.rows, TableName::TransitOut));
    assert(b.subset_of(a)) by {
        assert forall|k: Seq<u8>| b.contains(k) implies a.contains(k) by {
            assert(t.rows.contains_key((TableName::TransitOut, k)));
        }
    }
    vstd::set_lib::lemma_len_subset(b, a);
}

/// A drain of the routes leaves nothing behind: with not more than 4096 entries on the queue, each
/// event that is queued for one of the routed connections and whose bytes are here goes out, to the
/// address of that route. Only entries whose event is gone leave the queue.
pub proof fn law_every_queued_event_goes_out(
    s: StoreState,
    routes: Seq<(EventId, Seq<u8>)>,
    n: int,
)
    requires
        0 <= n <= routes.len(),
        countable(keys_of(s.rows, TableName::TransitOut)),
        keys_of(s.rows, TableName::TransitOut).len() <= 4096,
    ensures
        routes_drained(s, routes, n) matches Ok((after, out)) ==> {
            &&& only_stale_entries_went(s, after)
            &&& forall|i: int, event_id: EventId|
                #![trigger routes[i], resolved(s, event_id)]
                0 <= i < n && s.rows.contains_key(
                    (TableName::TransitOut, routes[i].0@ + event_id@),
                ) && resolved(s, event_id) is Some ==> exists|j: int|
                    0 <= j < out.len() && goes_out(s, routes[i], event_id, #[trigger] out[j])
        },
    decreases n,
{
    if n > 0 {
        law_every_queued_event_goes_out(s, routes, n - 1);
        if let Ok((after, out)) = routes_drained(s, routes, n) {
            let (t, before) = routes_drained(s, routes, n - 1)->Ok_0;
            let route = routes[n - 1];
            lemma_fewer_entries(s, t);
            law_queue_of_a_connection(t, route.0);
            let (items, stale) = queued_for(t, route.0)->Ok_0;
            assert(only_stale_entries_went(s, after)) by {
                assert forall|k: (TableName, Seq<u8>)| #[trigger]
                    s.rows.contains_key(k) && !after.rows.contains_key(k) implies k.0
                    == TableName::TransitOut && k.1.len() == 64 && resolved(
                    s,
                    id_with(k.1.skip(32)),
                ) is None by {
                    if t.rows.contains_key(k) {
                        assert(stale.to_set().contains(k.1));
                        assert(stale.contains(k.1));
                        assert(resolved(t, id_with(k.1.skip(32))) is None);
                    }
                }
                assert forall|k: (TableName, Seq<u8>)| #[trigger]
                    after.rows.contains_key(k) implies s.rows.contains_key(k) && after.rows[k]
                    == s.rows[k] by {
                    assert(t.rows.contains_key(k));
                }
            }
            assert forall|i: int, event_id: EventId|
                #![trigger routes[i], resolved(s, event_id)]
                0 <= i < n && s.rows.contains_key(
                    (TableName::TransitOut, routes[i].0@ + event_id@),
                ) && resolved(s, event_id) is Some implies exists|j: int|
                0 <= j < out.len() && goes_out(s, routes[i], event_id, #[trigger] out[j]) by {
                if i < n - 1 {
                    let j = choose|j: int|
                        0 <= j < before.len() && goes_out(
                            s,
                            routes[i],
                            event_id,
                            #[trigger] before[j],
                        );
                    assert(out[j] == before[j]);
                } else {
                    let k = (TableName::TransitOut, route.0@ + event_id@);
                    assert(k.1.skip(32) =~= event_id@);
                    lemma_id_with(event_id);
                    assert(t.rows.contains_key(k));
                    assert(resolved(t, event_id) == resolved(s, event_id));
                    law_batches_hold_all_events(items);
                    assert(goes_out(s, route, event_id, out[out.len() - 1]));
                }
            }
        }
    }
}

/// What is to be sent over a route holds an event, with its bytes.
pub open spec fn goes_out(
    s: StoreState,
    route: (EventId, Seq<u8>),
    event_id: EventId,
    out: OutboundView,
) -> bool {
    &&& out.connection_id == route.0
    &&& out.addr == route.1
    &&& joined(out.batches).contains(
        ItemView {
            key: TransitOutKey { connection_id: route.0, event_id },
            event_bytes: resolved(s, event_id)->Some_0,
        },
    )
}

/// Every key that a frame carries is remembered for its row: the lists belong to the last rows, one
/// by one. What was remembered stays remembered.
pub proof fn law_every_carried_key_is_remembered(
    m: Map<Seq<u8>, Seq<Seq<u8>>>,
    rows: Seq<Seq<u8>>,
    keys: Seq<Seq<Seq<u8>>>,
    n: int,
)
    requires
        0 <= n <= keys.len() <= rows.len(),
    ensures
        forall|i: int, k: Seq<u8>|
            #![trigger keys[i].contains(k)]
            0 <= i < n && keys[i].contains(k) ==> carried(
                remembered(m, rows, keys, n),
                rows[rows.len() - keys.len() + i],
            ).contains(k),
        forall|row: Seq<u8>, k: Seq<u8>| #[trigger]
            carried(m, row).contains(k) ==> carried(remembered(m, rows, keys, n), row).contains(k),
    decreases n,
{
    if n > 0 {
        law_every_carried_key_is_remembered(m, rows, keys, n - 1);
        let p = remembered(m, rows, keys, n - 1);
        let q = remembered(m, rows, keys, n);
        let last = rows[rows.len() - keys.len() + n - 1];
        assert forall|row: Seq<u8>, k: Seq<u8>| #[trigger]
            carried(p, row).contains(k) implies carried(q, row).contains(k) by {
            let j = choose|j: int| 0 <= j < carried(p, row).len() && carried(p, row)[j] == k;
            assert(carried(q, row)[j] == k);
        }
        assert forall|i: int, k: Seq<u8>|
            #![trigger keys[i].contains(k)]
            0 <= i < n && keys[i].contains(k) implies carried(
            q,
            rows[rows.len() - keys.len() + i],
        ).contains(k) by {
            if i == n - 1 {
                let j = choose|j: int| 0 <= j < keys[i].len() && keys[i][j] == k;
                assert(carried(q, last)[carried(p, last).len() + j] == k);
            } else {
                assert(carried(p, rows[rows.len() - keys.len() + i]).contains(k));
            }
        }
    }
}

/// Once frames are sent, everything that they carried leaves the queue, and nothing else does; what
/// other frames carry stays remembered.
pub proof fn law_every_sent_key_is_taken(
    m: Map<Seq<u8>, Seq<Seq<u8>>>,
    rows: Seq<Seq<u8>>,
    n: int,
)
    requires
        0 <= n <= rows.len(),
    ensures
        forall|i: int, k: Seq<u8>|
            #![trigger carried(m, rows[i]).contains(k)]
            0 <= i < n && carried(m, rows[i]).contains(k) ==> taken(m, rows, n).1.contains(k),
        forall|k: Seq<u8>| #[trigger]
            taken(m, rows, n).1.contains(k) ==> exists|i: int|
                0 <= i < n && carried(m, #[trigger] rows[i]).contains(k),
        forall|row: Seq<u8>| #[trigger]
            taken(m, rows, n).0.contains_key(row) <==> m.contains_key(row) && !(exists|i: int|
                0 <= i < n && #[trigger] rows[i] == row),
        forall|row: Seq<u8>| #[trigger]
            taken(m, rows, n).0.contains_key(row) ==> taken(m, rows, n).0[row] == m[row],
    decreases n,
{
    if n > 0 {
        law_every_sent_key_is_taken(m, rows, n - 1);
        let (p, before) = taken(m, rows, n - 1);
        let (q, keys) = taken(m, rows, n);
        let last = rows[n - 1];
        assert forall|k: Seq<u8>| before.contains(k) implies keys.contains(k) by {
            let j = choose|j: int| 0 <= j < before.len() && before[j] == k;
            assert(keys[j] == k);
        }
        assert forall|i: int, k: Seq<u8>|
            #![trigger carried(m, rows[i]).contains(k)]
            0 <= i < n && carried(m, rows[i]).contains(k) implies keys.contains(k) by {
            if i == n - 1 {
                if p.contains_key(last) {
                    let j = choose|j: int| 0 <= j < carried(p, last).len() && carried(p, last)[j]
                        == k;
                    assert(keys[before.len() + j] == k);
                } else {
                    let e = choose|e: int| 0 <= e < n - 1 && #[trigger] rows[e] == last;
                    assert(carried(m, rows[e]).contains(k));
                }
            }
        }
        assert forall|k: Seq<u8>| #[trigger] keys.contains(k) implies exists|i: int|
            0 <= i < n && carried(m, #[trigger] rows[i]).contains(k) by {
            let j = choose|j: int| 0 <= j < keys.len() && keys[j] == k;
            if j < before.len() {
                assert(before[j] == k);
                assert(before.contains(k));
                let i = choose|i: int| 0 <= i < n - 1 && carried(m, #[trigger] rows[i]).contains(k);
                assert(carried(m, rows[i]).contains(k));
            } else {
                assert(carried(p, last)[j - before.len()] == k);
                assert(carried(m, rows[n - 1]).contains(k));
            }
        }
        assert forall|row: Seq<u8>| #[trigger]
            q.contains_key(row) <==> m.contains_key(row) && !(exists|i: int|
                0 <= i < n && #[trigger] rows[i] == row) by {
            assert(q.contains_key(row) <==> p.contains_key(row) && row != last);
            if exists|i: int| 0 <= i < n && #[trigger] rows[i] == row {
                let i = choose|i: int| 0 <= i < n && #[trigger] rows[i] == row;
                if i < n - 1 {
                    assert(rows[i] == row);
                    assert(!p.contains_key(row));
                }
            } else {
                assert(rows[n - 1] != row);
            }
        }
    }
}

} // verus!
