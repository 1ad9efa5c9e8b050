//! The rows of connections: who is at the other end, where they are dialled, which request a
//! connection answered.
//!
//! An address is the text form of a socket address, in bytes.
use vstd::prelude::*;
use vstd::utf8::valid_utf8;
use crate::bytes::{
    copy_bytes, has_prefix, id_at, id_bytes, id_with, lemma_id_ext, lemma_id_of, lemma_id_with,
    lex_lt, EventId,
};
use crate::schema::{collected, lemma_collected_at, lemma_collected_step};
use crate::store::Store;
use crate::table::{ascending, countable, listing, with_prefix};
use crate::tables::{
    keys_listed, keys_of, law_first_rows_come_first, lemma_rows_listed, pair_views, rows_listed,
    RowView, Rows, TableName, TableRow,
};
use crate::text::{check_utf8, prefixed, text, utf8_fault};

verus! {

/// A connection is named by the id of its response event.
pub type ConnectionId = EventId;

/// What a row with an id for a value says. Nothing without a row; `error` for a value of
/// another length.
pub open spec fn id_row(m: Rows, t: TableName, key: Seq<u8>, error: Seq<char>) -> Result<
    Option<EventId>,
    Seq<char>,
> {
    if !m.contains_key((t, key)) {
        Ok(None)
    } else if m[(t, key)].len() != 32 {
        Err(error)
    } else {
        Ok(Some(id_with(m[(t, key)])))
    }
}

fn read_id_row(store: &Store, t: TableName, key: &EventId, error: &str) -> (r: Result<
    Option<EventId>,
    String,
>)
    requires
        store.wf(),
    ensures
        match id_row(store@.rows, t, key@, error@) {
            Ok(v) => r == Ok::<Option<EventId>, String>(v),
            Err(e) => r matches Err(x) && x@ == e,
        },
{
    match store.tables.table_row(t, key.as_slice()) {
        None => Ok(None),
        Some(value) => {
            if value.len() != 32 {
                return Err(text(error));
            }
            let id = id_at(value.as_slice(), 0);
            proof {
                assert(value@.subrange(0, 32) =~= value@);
                lemma_id_with(id);
            }
            Ok(Some(id))
        },
    }
}

/// The remote endpoint of a connection.
pub open spec fn remote_endpoint_of(m: Rows, connection_id: EventId) -> Result<
    EventId,
    Seq<char>,
> {
    match id_row(m, TableName::Connections, connection_id@, "endpoint id must be 32 bytes"@) {
        Err(e) => Err(e),
        Ok(None) => Err("unknown connection"@),
        Ok(Some(endpoint)) => Ok(endpoint),
    }
}

/// The remote endpoint of a connection.
pub fn remote_endpoint(store: &Store, connection_id: &ConnectionId) -> (r: Result<EventId, String>)
    requires
        store.wf(),
    ensures
        match remote_endpoint_of(store@.rows, *connection_id) {
            Ok(v) => r == Ok::<EventId, String>(v),
            Err(e) => r matches Err(x) && x@ == e,
        },
{
    match read_id_row(
        store,
        TableName::Connections,
        connection_id,
        "endpoint id must be 32 bytes",
    ) {
        Err(e) => Err(e),
        Ok(None) => Err(text("unknown connection")),
        Ok(Some(endpoint)) => Ok(endpoint),
    }
}

/// The row of a connection.
pub fn connection_row(connection_id: &ConnectionId, remote: &EventId) -> (r: TableRow)
    ensures
        r@ == (RowView { table: TableName::Connections, key: connection_id@, value: remote@ }),
{
    TableRow {
        table: TableName::Connections,
        key: id_bytes(connection_id),
        value: id_bytes(remote),
    }
}

/// The row of the address that a connection is dialled at.
pub fn transport_target_row(connection_id: &ConnectionId, addr: &[u8]) -> (r: TableRow)
    ensures
        r@ == (RowView { table: TableName::TransportTargets, key: connection_id@, value: addr@ }),
{
    TableRow {
        table: TableName::TransportTargets,
        key: id_bytes(connection_id),
        value: copy_bytes(addr),
    }
}

/// The row of the workspace that a bootstrap connection is for.
pub fn bootstrap_workspace_row(connection_id: &ConnectionId, workspace_id: &EventId) -> (r: TableRow)
    ensures
        r@ == (RowView {
            table: TableName::BootstrapWorkspaces,
            key: connection_id@,
            value: workspace_id@,
        }),
{
    TableRow {
        table: TableName::BootstrapWorkspaces,
        key: id_bytes(connection_id),
        value: id_bytes(workspace_id),
    }
}

/// The workspace that a bootstrap connection is for.
pub open spec fn bootstrap_workspace_of(m: Rows, connection_id: EventId) -> Result<
    Option<EventId>,
    Seq<char>,
> {
    id_row(m, TableName::BootstrapWorkspaces, connection_id@, "workspace id must be 32 bytes"@)
}

/// The workspace that a bootstrap connection is for, if it is one.
pub fn bootstrap_workspace_id(store: &Store, connection_id: &ConnectionId) -> (r: Result<
    Option<EventId>,
    String,
>)
    requires
        store.wf(),
    ensures
        match bootstrap_workspace_of(store@.rows, *connection_id) {
            Ok(v) => r == Ok::<Option<EventId>, String>(v),
            Err(e) => r matches Err(x) && x@ == e,
        },
{
    read_id_row(
        store,
        TableName::BootstrapWorkspaces,
        connection_id,
        "workspace id must be 32 bytes",
    )
}

/// The row of the connection that answered a request.
pub fn request_connection_row(request_id: &EventId, connection_id: &ConnectionId) -> (r: TableRow)
    ensures
        r@ == (RowView {
            table: TableName::RequestConnections,
            key: request_id@,
            value: connection_id@,
        }),
{
    TableRow {
        table: TableName::RequestConnections,
        key: id_bytes(request_id),
        value: id_bytes(connection_id),
    }
}

/// The connection that answered a request.
pub open spec fn connection_of_request(m: Rows, request_id: EventId) -> Result<
    Option<EventId>,
    Seq<char>,
> {
    id_row(m, TableName::RequestConnections, request_id@, "connection id must be 32 bytes"@)
}

/// The connection that answered a request, if one did.
pub fn connection_id_for_request(store: &Store, request_id: &EventId) -> (r: Result<
    Option<ConnectionId>,
    String,
>)
    requires
        store.wf(),
    ensures
        match connection_of_request(store@.rows, *request_id) {
            Ok(v) => r == Ok::<Option<EventId>, String>(v),
            Err(e) => r matches Err(x) && x@ == e,
        },
{
    read_id_row(
        store,
        TableName::RequestConnections,
        request_id,
        "connection id must be 32 bytes",
    )
}

/// The row of a connection event: a request or a response.
pub fn connection_event_row(event_id: &EventId, bytes: &[u8]) -> (r: TableRow)
    ensures
        r@ == (RowView { table: TableName::ConnectionEvents, key: event_id@, value: bytes@ }),
{
    TableRow {
        table: TableName::ConnectionEvents,
        key: id_bytes(event_id),
        value: copy_bytes(bytes),
    }
}

/// The bytes of a connection event.
pub open spec fn connection_event_of(m: Rows, event_id: EventId) -> Result<Seq<u8>, Seq<char>> {
    let key = (TableName::ConnectionEvents, event_id@);
    if m.contains_key(key) {
        Ok(m[key])
    } else {
        Err("unknown connection event"@)
    }
}

/// The bytes of a connection event.
pub fn connection_event_bytes(store: &Store, event_id: &EventId) -> (r: Result<Vec<u8>, String>)
    requires
        store.wf(),
    ensures
        match connection_event_of(store@.rows, *event_id) {
            Ok(v) => r matches Ok(x) && x@ == v,
            Err(e) => r matches Err(x) && x@ == e,
        },
{
    match store.tables.table_row(TableName::ConnectionEvents, event_id.as_slice()) {
        Some(bytes) => Ok(bytes),
        None => Err(text("unknown connection event")),
    }
}

/// The row of a connection-scoped event.
pub fn connection_scoped_event_row(event_id: &EventId, bytes: &[u8]) -> (r: TableRow)
    ensures
        r@ == (RowView { table: TableName::ConnectionScopedEvents, key: event_id@, value: bytes@ }),
{
    TableRow {
        table: TableName::ConnectionScopedEvents,
        key: id_bytes(event_id),
        value: copy_bytes(bytes),
    }
}

// ---------------------------------------------------------------------------
// Rows with an id for a key and an address for a value
// ---------------------------------------------------------------------------

/// An id and the address that goes with it.
#[derive(Debug, Clone, PartialEq, Eq)]
pub struct AddressedId {
    pub id: EventId,
    pub addr: Vec<u8>,
}

/// Ids with their addresses.
pub open spec fn addressed_views(rows: Seq<AddressedId>) -> Seq<(EventId, Seq<u8>)> {
    rows.map_values(|r: AddressedId| (r.id, r.addr@))
}

/// The ids of some rows.
pub open spec fn addressed_ids(rows: Seq<AddressedId>) -> Seq<EventId> {
    rows.map_values(|r: AddressedId| r.id)
}

/// Ids in ascending order.
pub open spec fn ids_ascend(ids: Seq<EventId>) -> bool {
    forall|i: int, j: int| 0 <= i < j < ids.len() ==> lex_lt(#[trigger] ids[i]@, #[trigger] ids[j]@)
}

/// What a row with an id for a key says, or `error` for a key of another length. Where the value
/// is read, it is a text: `not_text` goes in front of what is wrong with one that is none.
pub open spec fn addressed_of(
    row: (Seq<u8>, Seq<u8>),
    error: Seq<char>,
    not_text: Option<Seq<char>>,
) -> Result<(EventId, Seq<u8>), Seq<char>> {
    if row.0.len() != 32 {
        Err(error)
    } else {
        match not_text {
            Some(t) if !valid_utf8(row.1) => Err(t + utf8_fault(row.1)),
            _ => Ok((id_with(row.0), row.1)),
        }
    }
}

/// What the first rows of a table say, in the order of their keys.
pub open spec fn addressed_rows(
    m: Rows,
    t: TableName,
    limit: usize,
    error: Seq<char>,
    not_text: Option<Seq<char>>,
) -> Result<Seq<(EventId, Seq<u8>)>, Seq<char>> {
    collected(
        rows_listed(m, t, Seq::empty(), limit).map_values(
            |row: (Seq<u8>, Seq<u8>)| addressed_of(row, error, not_text),
        ),
    )
}

/// The text of an optional string.
pub open spec fn optional_text(s: Option<&str>) -> Option<Seq<char>> {
    match s {
        Some(s) => Some(s@),
        None => None,
    }
}

fn read_addressed_rows(
    store: &Store,
    t: TableName,
    limit: usize,
    error: &str,
    not_text: Option<&str>,
) -> (r: Result<Vec<AddressedId>, String>)
    requires
        store.wf(),
    ensures
        match addressed_rows(store@.rows, t, limit, error@, optional_text(not_text)) {
            Ok(v) => r matches Ok(x) && addressed_views(x@) == v,
            Err(e) => r matches Err(x) && x@ == e,
        },
        r matches Ok(x) ==> ids_ascend(addressed_ids(x@)),
{
    let empty: Vec<u8> = Vec::new();
    let rows = store.tables.table_rows_with_key_prefix(t, empty.as_slice(), limit);
    let ghost listed = rows_listed(store@.rows, t, Seq::empty(), limit);
    let ghost items = listed.map_values(
        |row: (Seq<u8>, Seq<u8>)| addressed_of(row, error@, optional_text(not_text)),
    );
    proof {
        assert(empty@ =~= Seq::<u8>::empty());
        assert(items.len() == rows@.len());
    }
    let ghost keys = keys_listed(store@.rows, t, Seq::empty(), limit);
    let ghost all = listing(with_prefix(keys_of(store@.rows, t), empty@));
    let mut out: Vec<AddressedId> = Vec::new();
    let mut i: usize = 0;
    proof {
        assert(addressed_views(out@) =~= Seq::empty());
        assert forall|j: int, k: int| 0 <= j < k < keys.len() implies lex_lt(
            #[trigger] keys[j],
            #[trigger] keys[k],
        ) by {
            assert(keys[j] == all[j] && keys[k] == all[k]);
        }
    }
    while i < rows.len()
        invariant
            i <= rows@.len(),
            keys == keys_listed(store@.rows, t, Seq::empty(), limit),
            keys.len() == rows@.len(),
            listed == rows_listed(store@.rows, t, Seq::empty(), limit),
            ascending(keys),
            out@.len() == i,
            forall|j: int| 0 <= j < i ==> (#[trigger] out@[j]).id@ == keys[j],
            pair_views(rows@) == listed,
            items == listed.map_values(
                |row: (Seq<u8>, Seq<u8>)| addressed_of(row, error@, optional_text(not_text)),
            ),
            items.len() == rows@.len(),
            addressed_rows(store@.rows, t, limit, error@, optional_text(not_text)) == collected(
                items,
            ),
            collected(items.take(i as int)) == Ok::<Seq<(EventId, Seq<u8>)>, Seq<char>>(
                addressed_views(out@),
            ),
        decreases rows.len() - i,
    {
        proof {
            assert(pair_views(rows@)[i as int] == (rows@[i as int].0@, rows@[i as int].1@));
            lemma_collected_step(items, i as int);
        }
        if rows[i].0.len() != 32 {
            return Err(text(error));
        }
        if let Some(not_text) = not_text {
            if let Err(e) = check_utf8(rows[i].1.as_slice()) {
                return Err(prefixed(not_text, e));
            }
        }
        let id = id_at(rows[i].0.as_slice(), 0);
        let addr = copy_bytes(rows[i].1.as_slice());
        let ghost before = out@;
        out.push(AddressedId { id, addr });
        proof {
            assert(rows@[i as int].0@.subrange(0, 32) =~= rows@[i as int].0@);
            lemma_id_with(id);
            assert(addressed_views(out@) =~= addressed_views(before).push((id, addr@)));
        }
        i = i + 1;
    }
    proof {
        assert(items.take(i as int) =~= items);
        let ids = addressed_ids(out@);
        assert forall|j: int, k: int| 0 <= j < k < ids.len() implies lex_lt(
            #[trigger] ids[j]@,
            #[trigger] ids[k]@,
        ) by {
            assert(out@[j].id@ == keys[j] && out@[k].id@ == keys[k]);
        }
    }
    Ok(out)
}

/// All routes: the connections that have an address, with it, in the order of their ids.
pub open spec fn routes_of(m: Rows) -> Result<Seq<(EventId, Seq<u8>)>, Seq<char>> {
    addressed_rows(
        m,
        TableName::TransportTargets,
        usize::MAX,
        "connection id must be 32 bytes"@,
        Some("transport target is not utf8: "@),
    )
}

/// Read all routes.
pub fn routes(store: &Store) -> (r: Result<Vec<AddressedId>, String>)
    requires
        store.wf(),
    ensures
        match routes_of(store@.rows) {
            Ok(v) => r matches Ok(x) && addressed_views(x@) == v,
            Err(e) => r matches Err(x) && x@ == e,
        },
        r matches Ok(x) ==> ids_ascend(addressed_ids(x@)),
{
    read_addressed_rows(
        store,
        TableName::TransportTargets,
        usize::MAX,
        "connection id must be 32 bytes",
        Some("transport target is not utf8: "),
    )
}

/// The connections that have an address; the addresses are not looked at.
pub open spec fn routed_connections(m: Rows) -> Result<Seq<EventId>, Seq<char>> {
    match addressed_rows(
        m,
        TableName::TransportTargets,
        usize::MAX,
        "connection id must be 32 bytes"@,
        None,
    ) {
        Err(e) => Err(e),
        Ok(routes) => Ok(routes.map_values(|r: (EventId, Seq<u8>)| r.0)),
    }
}

/// The connections that have an address, in the order of their ids.
pub fn connection_ids_with_routes(store: &Store) -> (r: Result<Vec<ConnectionId>, String>)
    requires
        store.wf(),
    ensures
        match routed_connections(store@.rows) {
            Ok(v) => r matches Ok(x) && x@ == v,
            Err(e) => r matches Err(x) && x@ == e,
        },
        r matches Ok(x) ==> ids_ascend(x@),
{
    let rows = match read_addressed_rows(
        store,
        TableName::TransportTargets,
        usize::MAX,
        "connection id must be 32 bytes",
        None,
    ) {
        Ok(rows) => rows,
        Err(e) => {
            return Err(e);
        },
    };
    let ghost views = addressed_views(rows@);
    let mut out: Vec<ConnectionId> = Vec::new();
    let mut i: usize = 0;
    while i < rows.len()
        invariant
            i <= rows@.len(),
            views == addressed_views(rows@),
            out@.len() == i,
            forall|j: int| 0 <= j < i ==> (#[trigger] out@[j]) == views[j].0,
        decreases rows.len() - i,
    {
        assert(views[i as int] == (rows@[i as int].id, rows@[i as int].addr@));
        out.push(rows[i].id);
        i = i + 1;
    }
    proof {
        assert(views.len() == rows@.len());
        assert(out@ =~= views.map_values(|r: (EventId, Seq<u8>)| r.0));
        assert(out@ =~= addressed_ids(rows@)) by {
            assert forall|j: int| 0 <= j < out@.len() implies #[trigger] out@[j] == addressed_ids(
                rows@,
            )[j] by {
                assert(views[j] == (rows@[j].id, rows@[j].addr@));
            }
        }
    }
    Ok(out)
}

/// The row of a request that is to be sent.
pub fn pending_connection_attempt_row(request_id: &EventId, addr: &[u8]) -> (r: TableRow)
    ensures
        r@ == (RowView {
            table: TableName::PendingConnectionAttempts,
            key: request_id@,
            value: addr@,
        }),
{
    TableRow {
        table: TableName::PendingConnectionAttempts,
        key: id_bytes(request_id),
        value: copy_bytes(addr),
    }
}

/// The row of a response that is to be sent.
pub fn pending_connection_response_row(request_id: &EventId, addr: &[u8]) -> (r: TableRow)
    ensures
        r@ == (RowView {
            table: TableName::PendingConnectionResponses,
            key: request_id@,
            value: addr@,
        }),
{
    TableRow {
        table: TableName::PendingConnectionResponses,
        key: id_bytes(request_id),
        value: copy_bytes(addr),
    }
}

/// Read the first pending requests or responses, in the order of their request ids.
pub fn pending_connection_rows(store: &Store, t: TableName, limit: usize) -> (r: Result<
    Vec<AddressedId>,
    String,
>)
    requires
        store.wf(),
    ensures
        match addressed_rows(
            store@.rows,
            t,
            limit,
            "event id must be 32 bytes"@,
            Some("pending connection addr is not utf8: "@),
        ) {
            Ok(v) => r matches Ok(x) && addressed_views(x@) == v,
            Err(e) => r matches Err(x) && x@ == e,
        },
{
    read_addressed_rows(
        store,
        t,
        limit,
        "event id must be 32 bytes",
        Some("pending connection addr is not utf8: "),
    )
}

proof fn lemma_addressed(items: Seq<Result<(EventId, Seq<u8>), Seq<char>>>)
    ensures
        collected(items) matches Ok(out) ==> out.len() == items.len() && forall|i: int|
            0 <= i < items.len() ==> #[trigger] items[i] == Ok::<(EventId, Seq<u8>), Seq<char>>(
                out[i],
            ),
    decreases items.len(),
{
    if items.len() > 0 {
        lemma_addressed(items.drop_last());
        if collected(items) is Ok {
            let out = collected(items)->Ok_0;
            assert forall|i: int| 0 <= i < items.len() implies #[trigger] items[i] == Ok::<
                (EventId, Seq<u8>),
                Seq<char>,
            >(out[i]) by {
                if i < items.len() - 1 {
                    assert(items.drop_last()[i] == items[i]);
                }
            }
        }
    }
}

/// The routed connections are those with a transport target, each named once.
pub proof fn law_routed_connections_have_targets(m: Rows)
    requires
        countable(keys_of(m, TableName::TransportTargets)),
    ensures
        routed_connections(m) matches Ok(ids) ==> {
            &&& forall|id: EventId| #[trigger]
                ids.contains(id) <==> m.contains_key((TableName::TransportTargets, id@))
            &&& ids.no_duplicates()
        },
{
    let t = TableName::TransportTargets;
    let error = "connection id must be 32 bytes"@;
    let keys = keys_listed(m, t, Seq::empty(), usize::MAX);
    let rows = rows_listed(m, t, Seq::empty(), usize::MAX);
    let items = rows.map_values(|row: (Seq<u8>, Seq<u8>)| addressed_of(row, error, None));
    lemma_rows_listed(m, t, Seq::empty());
    lemma_addressed(items);
    assert forall|k: Seq<u8>| has_prefix(k, Seq::<u8>::empty()) by {
        assert(k.take(0) =~= Seq::<u8>::empty());
    }
    if routed_connections(m) is Ok {
        let ids = routed_connections(m)->Ok_0;
        assert forall|i: int| 0 <= i < ids.len() implies (#[trigger] ids[i])@ == keys[i] by {
            assert(items[i] == addressed_of(rows[i], error, None));
            lemma_id_of(keys[i], ids[i]);
        }
        assert forall|id: EventId| #[trigger]
            ids.contains(id) <==> m.contains_key((t, id@)) by {
            if ids.contains(id) {
                let i = choose|i: int| 0 <= i < ids.len() && ids[i] == id;
                assert(keys.contains(keys[i]));
            }
            if m.contains_key((t, id@)) {
                assert(keys.contains(id@));
                let i = choose|i: int| 0 <= i < keys.len() && keys[i] == id@;
                lemma_id_ext(ids[i], id);
            }
        }
        assert forall|i: int, j: int| 0 <= i < ids.len() && 0 <= j < ids.len() && i
            != j implies ids[i] != ids[j] by {
            assert(keys[i] != keys[j]);
        }
    }
}

/// What waits under an address is listed completely: with room for all of them, each row of a table
/// whose key is an id comes out with that id and its address, and whatever comes out is such a row.
pub proof fn law_every_addressed_row_is_listed(
    m: Rows,
    t: TableName,
    limit: usize,
    error: Seq<char>,
    not_text: Option<Seq<char>>,
)
    requires
        countable(keys_of(m, t)),
    ensures
        addressed_rows(m, t, limit, error, not_text) matches Ok(rows) ==> {
            &&& rows.len() <= limit
            &&& forall|i: int|
                0 <= i < rows.len() ==> m.contains_key((t, (#[trigger] rows[i]).0@)) && rows[i].1
                    == m[(t, rows[i].0@)]
            &&& keys_of(m, t).len() <= limit ==> forall|id: EventId| #[trigger]
                m.contains_key((t, id@)) ==> rows.contains((id, m[(t, id@)]))
        },
{
    let listed = rows_listed(m, t, Seq::empty(), limit);
    let items = listed.map_values(|row: (Seq<u8>, Seq<u8>)| addressed_of(row, error, not_text));
    law_first_rows_come_first(m, t, Seq::empty(), limit);
    lemma_collected_at(items);
    if let Ok(rows) = addressed_rows(m, t, limit, error, not_text) {
        assert forall|i: int| 0 <= i < rows.len() implies (#[trigger] rows[i]).0@ == listed[i].0
            && rows[i].1 == listed[i].1 by {
            assert(items[i] == addressed_of(listed[i], error, not_text));
            lemma_id_of(listed[i].0, rows[i].0);
        }
        if keys_of(m, t).len() <= limit {
            assert forall|id: EventId| #[trigger] m.contains_key((t, id@)) implies rows.contains(
                (id, m[(t, id@)]),
            ) by {
                assert(id@.take(0) =~= Seq::<u8>::empty());
                assert(has_prefix(id@, Seq::<u8>::empty()));
                assert(listed.contains((id@, m[(t, id@)])));
                let i = choose|i: int| 0 <= i < listed.len() && listed[i] == (id@, m[(t, id@)]);
                lemma_id_ext(rows[i].0, id);
                assert(rows[i] == (id, m[(t, id@)]));
            }
        }
    }
}

} // verus!
