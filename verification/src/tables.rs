//! Row tables: byte keys and byte values, by table name.
use vstd::prelude::*;
use crate::bytes::{copy_bytes, extend_bytes, has_prefix, lex_lt};
use crate::table::{
    at_most, countable, is_listing, key_views, lemma_listing_is, lemma_prefix_listed, listing,
    with_prefix, Table,
};

verus! {

/// The row tables.
#[derive(Debug, Clone, Copy, PartialEq, Eq, Structural)]
pub enum TableName {
    /// Canonical bytes that wait for admission.
    CanonicalIn,
    /// How a stored event was received.
    EventReceiveContext,
    /// Applied events whose dependents may be unblocked.
    RecentlyValidEvents,
    /// Applied shared events that the sync index has not seen.
    AppliedSharedEvents,
    /// Sync events that wait for the sync worker.
    SyncInEvents,
    /// Events that wait to be sent over a connection.
    TransitOut,
    /// Frames that arrived and wait to be unwrapped.
    NetworkInbound,
    /// The remote endpoint of each connection.
    Connections,
    /// The event behind each connection or request.
    ConnectionEvents,
    /// Canonical bytes of connection-scoped events.
    ConnectionScopedEvents,
    /// The connection that answered each request.
    RequestConnections,
    /// The address that each connection is dialled at.
    TransportTargets,
    /// The workspace that each bootstrap connection is for.
    BootstrapWorkspaces,
    /// Requests to send, by request id.
    PendingConnectionAttempts,
    /// Responses to send, by request id.
    PendingConnectionResponses,
    /// Purged events that the sync index still has to forget.
    NegentropyPendingPurges,
    /// Who belongs to which workspace.
    EndpointMemberships,
    /// The keys of this device.
    LocalEndpoint,
    /// Invite secrets, by the hash of the secret.
    InviteSecrets,
    /// A table of an event module.
    Module(u8),
}

/// The number of a table.
pub open spec fn table_number(t: TableName) -> (u8, u8) {
    match t {
        TableName::CanonicalIn => (1, 0),
        TableName::EventReceiveContext => (2, 0),
        TableName::RecentlyValidEvents => (3, 0),
        TableName::AppliedSharedEvents => (4, 0),
        TableName::SyncInEvents => (5, 0),
        TableName::TransitOut => (6, 0),
        TableName::NetworkInbound => (7, 0),
        TableName::Connections => (8, 0),
        TableName::ConnectionEvents => (9, 0),
        TableName::ConnectionScopedEvents => (10, 0),
        TableName::RequestConnections => (11, 0),
        TableName::TransportTargets => (12, 0),
        TableName::BootstrapWorkspaces => (13, 0),
        TableName::PendingConnectionAttempts => (14, 0),
        TableName::PendingConnectionResponses => (15, 0),
        TableName::NegentropyPendingPurges => (16, 0),
        TableName::EndpointMemberships => (18, 0),
        TableName::LocalEndpoint => (19, 0),
        TableName::InviteSecrets => (20, 0),
        TableName::Module(n) => (17, n),
    }
}

fn number_of(t: TableName) -> (r: (u8, u8))
    ensures
        r == table_number(t),
{
    match t {
        TableName::CanonicalIn => (1, 0),
        TableName::EventReceiveContext => (2, 0),
        TableName::RecentlyValidEvents => (3, 0),
        TableName::AppliedSharedEvents => (4, 0),
        TableName::SyncInEvents => (5, 0),
        TableName::TransitOut => (6, 0),
        TableName::NetworkInbound => (7, 0),
        TableName::Connections => (8, 0),
        TableName::ConnectionEvents => (9, 0),
        TableName::ConnectionScopedEvents => (10, 0),
        TableName::RequestConnections => (11, 0),
        TableName::TransportTargets => (12, 0),
        TableName::BootstrapWorkspaces => (13, 0),
        TableName::PendingConnectionAttempts => (14, 0),
        TableName::PendingConnectionResponses => (15, 0),
        TableName::NegentropyPendingPurges => (16, 0),
        TableName::EndpointMemberships => (18, 0),
        TableName::LocalEndpoint => (19, 0),
        TableName::InviteSecrets => (20, 0),
        TableName::Module(n) => (17, n),
    }
}

/// One row.
#[derive(Debug, Clone, PartialEq, Eq)]
pub struct TableRow {
    pub table: TableName,
    pub key: Vec<u8>,
    pub value: Vec<u8>,
}

/// What a row says.
pub struct RowView {
    pub table: TableName,
    pub key: Seq<u8>,
    pub value: Seq<u8>,
}

impl View for TableRow {
    type V = RowView;

    open spec fn view(&self) -> RowView {
        RowView { table: self.table, key: self.key@, value: self.value@ }
    }
}

/// What a sequence of rows says.
pub open spec fn row_views(rows: Seq<TableRow>) -> Seq<RowView> {
    rows.map_values(|r: TableRow| r@)
}

/// The contents of the row tables.
pub type Rows = Map<(TableName, Seq<u8>), Seq<u8>>;

/// The keys of a table.
pub open spec fn keys_of(m: Rows, t: TableName) -> Set<Seq<u8>> {
    Set::new(|k: Seq<u8>| m.contains_key((t, k)))
}

/// The keys of a table that begin with a prefix, in key order, the first `limit` of them.
pub open spec fn keys_listed(m: Rows, t: TableName, prefix: Seq<u8>, limit: usize) -> Seq<
    Seq<u8>,
> {
    at_most(listing(with_prefix(keys_of(m, t), prefix)), limit)
}

/// The rows of a table whose keys begin with a prefix, in key order, the first `limit` of
/// them.
pub open spec fn rows_listed(m: Rows, t: TableName, prefix: Seq<u8>, limit: usize) -> Seq<
    (Seq<u8>, Seq<u8>),
> {
    keys_listed(m, t, prefix, limit).map_values(|k: Seq<u8>| (k, m[(t, k)]))
}

/// The contents after the first `n` rows are added, each unless its key is taken.
pub open spec fn rows_added(m: Rows, rows: Seq<RowView>, n: int) -> Rows
    decreases n,
{
    if n <= 0 {
        m
    } else {
        let p = rows_added(m, rows, n - 1);
        let r = rows[n - 1];
        if p.contains_key((r.table, r.key)) {
            p
        } else {
            p.insert((r.table, r.key), r.value)
        }
    }
}

/// How many of the first `n` rows are new.
pub open spec fn rows_added_count(m: Rows, rows: Seq<RowView>, n: int) -> int
    decreases n,
{
    if n <= 0 {
        0
    } else {
        let r = rows[n - 1];
        rows_added_count(m, rows, n - 1) + if rows_added(m, rows, n - 1).contains_key(
            (r.table, r.key),
        ) {
            0int
        } else {
            1
        }
    }
}

/// The contents without some keys of a table.
pub open spec fn rows_removed(m: Rows, t: TableName, keys: Set<Seq<u8>>) -> Rows {
    m.remove_keys(Set::new(|e: (TableName, Seq<u8>)| e.0 == t && keys.contains(e.1)))
}

/// Key and value of each row.
pub open spec fn pair_views(rows: Seq<(Vec<u8>, Vec<u8>)>) -> Seq<(Seq<u8>, Seq<u8>)> {
    rows.map_values(|r: (Vec<u8>, Vec<u8>)| (r.0@, r.1@))
}

/// The key of a row among all tables.
spec fn full_key(t: TableName, k: Seq<u8>) -> Seq<u8> {
    seq![table_number(t).0, table_number(t).1] + k
}

proof fn lemma_full_key(t: TableName, k: Seq<u8>, u: TableName, l: Seq<u8>)
    ensures
        full_key(t, k) == full_key(u, l) ==> t == u && k == l,
        full_key(t, k).skip(2) == k,
        full_key(t, k).take(2) == full_key(t, Seq::empty()),
{
    if full_key(t, k) == full_key(u, l) {
        assert(full_key(t, k)[0] == full_key(u, l)[0]);
        assert(full_key(t, k)[1] == full_key(u, l)[1]);
        assert(full_key(t, k).skip(2) =~= k);
        assert(full_key(u, l).skip(2) =~= l);
    }
    assert(full_key(t, k).skip(2) =~= k);
    assert(full_key(t, k).take(2) =~= full_key(t, Seq::empty()));
}

/// The row tables.
pub struct Tables {
    rows: Table<Vec<u8>>,
}

impl View for Tables {
    type V = Rows;

    closed spec fn view(&self) -> Rows {
        Map::new(
            |e: (TableName, Seq<u8>)| self.rows@.contains_key(full_key(e.0, e.1)),
            |e: (TableName, Seq<u8>)| self.rows@[full_key(e.0, e.1)],
        )
    }
}

fn make_full_key(t: TableName, k: &[u8]) -> (r: Vec<u8>)
    ensures
        r@ == full_key(t, k@),
{
    let (a, b) = number_of(t);
    let mut out: Vec<u8> = Vec::new();
    out.push(a);
    out.push(b);
    extend_bytes(&mut out, k);
    assert(out@ =~= full_key(t, k@));
    out
}

/// The keys of one table among all keys.
proof fn lemma_listing_tails(
    all: Seq<Seq<u8>>,
    t: TableName,
    full: Set<Seq<u8>>,
    keys: Set<Seq<u8>>,
)
    requires
        is_listing(all, full),
        forall|k: Seq<u8>| #[trigger]
            full.contains(k) ==> k == full_key(t, k.skip(2)) && keys.contains(k.skip(2)),
        forall|k: Seq<u8>| #[trigger] keys.contains(k) ==> full.contains(full_key(t, k)),
    ensures
        is_listing(all.map_values(|k: Seq<u8>| k.skip(2)), keys),
{
    let ts = all.map_values(|k: Seq<u8>| k.skip(2));
    assert forall|i: int, j: int| 0 <= i < j < ts.len() implies lex_lt(
        #[trigger] ts[i],
        #[trigger] ts[j],
    ) by {
        assert(all.contains(all[i]) && all.contains(all[j]));
        assert(full.contains(all[i]) && full.contains(all[j]));
        assert(lex_lt(all[i], all[j]));
        lemma_full_key(t, ts[i], t, ts[i]);
        lemma_full_key(t, ts[j], t, ts[j]);
        reveal_with_fuel(lex_lt, 3);
        assert(all[i].skip(1).skip(1) =~= ts[i]);
        assert(all[j].skip(1).skip(1) =~= ts[j]);
    }
    assert forall|k: Seq<u8>| #[trigger] keys.contains(k) <==> ts.contains(k) by {
        if keys.contains(k) {
            assert(full.contains(full_key(t, k)));
            assert(all.contains(full_key(t, k)));
            let i = choose|i: int| 0 <= i < all.len() && all[i] == full_key(t, k);
            lemma_full_key(t, k, t, k);
            assert(ts[i] == k);
        }
        if ts.contains(k) {
            let i = choose|i: int| 0 <= i < ts.len() && ts[i] == k;
            assert(all.contains(all[i]));
            assert(full.contains(all[i]));
        }
    }
}

impl Tables {
    pub closed spec fn wf(&self) -> bool {
        &&& self.rows.wf()
        &&& forall|k: Seq<u8>| #[trigger]
            self.rows@.contains_key(k) ==> exists|t: TableName| k == #[trigger] full_key(
                t,
                k.skip(2),
            )
    }

    /// Tables without rows.
    pub fn new() -> (s: Tables)
        ensures
            s.wf(),
            s@ == Map::<(TableName, Seq<u8>), Seq<u8>>::empty(),
    {
        let s = Tables { rows: Table::new() };
        assert(s@ =~= Map::<(TableName, Seq<u8>), Seq<u8>>::empty());
        s
    }

    /// A copy of the tables.
    pub fn duplicate(&self) -> (r: Tables)
        requires
            self.wf(),
        ensures
            r.wf(),
            r@ == self@,
    {
        Tables { rows: self.rows.duplicate() }
    }

    /// The value of a row.
    pub fn table_row(&self, table: TableName, key: &[u8]) -> (r: Option<Vec<u8>>)
        requires
            self.wf(),
        ensures
            r.is_some() == self@.contains_key((table, key@)),
            r matches Some(v) ==> v@ == self@[(table, key@)],
    {
        match self.rows.get(make_full_key(table, key).as_slice()) {
            Some(v) => Some(copy_bytes(v.as_slice())),
            None => None,
        }
    }

    /// Whether a row is there.
    pub fn has_row(&self, table: TableName, key: &[u8]) -> (r: bool)
        requires
            self.wf(),
        ensures
            r == self@.contains_key((table, key@)),
    {
        self.rows.contains(make_full_key(table, key).as_slice())
    }

    /// Add a row unless its key is taken; tells whether it was added.
    pub fn insert_row(&mut self, table: TableName, key: &[u8], value: Vec<u8>) -> (added: bool)
        requires
            old(self).wf(),
        ensures
            final(self).wf(),
            added == !old(self)@.contains_key((table, key@)),
            final(self)@ == (if added {
                old(self)@.insert((table, key@), value@)
            } else {
                old(self)@
            }),
    {
        let added = self.rows.insert(make_full_key(table, key), value);
        proof {
            lemma_full_key(table, key@, table, key@);
            if added {
                assert forall|k: Seq<u8>| #[trigger] self.rows@.contains_key(k) implies exists|
                    t: TableName,
                | k == #[trigger] full_key(t, k.skip(2)) by {
                    if k == full_key(table, key@) {
                        assert(k == full_key(table, k.skip(2)));
                    } else {
                        assert(old(self).rows@.contains_key(k));
                    }
                }
                let want = old(self)@.insert((table, key@), value@);
                assert forall|e: (TableName, Seq<u8>)| #[trigger] self@.contains_key(e)
                    <==> want.contains_key(e) by {
                    lemma_full_key(e.0, e.1, table, key@);
                }
                assert forall|e: (TableName, Seq<u8>)| #[trigger]
                    self@.contains_key(e) implies self@[e] == want[e] by {
                    lemma_full_key(e.0, e.1, table, key@);
                }
                assert(self@ =~= want);
            }
        }
        added
    }

    /// Delete a row; tells whether it was there.
    pub fn delete_row(&mut self, table: TableName, key: &[u8]) -> (deleted: bool)
        requires
            old(self).wf(),
        ensures
            final(self).wf(),
            deleted == old(self)@.contains_key((table, key@)),
            final(self)@ == old(self)@.remove((table, key@)),
    {
        let deleted = self.rows.remove(make_full_key(table, key).as_slice()).is_some();
        proof {
            assert forall|k: Seq<u8>| #[trigger] self.rows@.contains_key(k) implies exists|
                t: TableName,
            | k == #[trigger] full_key(t, k.skip(2)) by {
                assert(old(self).rows@.contains_key(k));
            }
            let want = old(self)@.remove((table, key@));
            assert forall|e: (TableName, Seq<u8>)| #[trigger] self@.contains_key(e)
                <==> want.contains_key(e) by {
                lemma_full_key(e.0, e.1, table, key@);
            }
            assert forall|e: (TableName, Seq<u8>)| #[trigger] self@.contains_key(e) implies self@[e]
                == want[e] by {
                lemma_full_key(e.0, e.1, table, key@);
            }
            assert(self@ =~= want);
        }
        deleted
    }

    /// Add rows, each unless its key is taken; gives how many are new.
    pub fn insert_table_rows(&mut self, rows: &Vec<TableRow>) -> (n: usize)
        requires
            old(self).wf(),
        ensures
            final(self).wf(),
            final(self)@ == rows_added(old(self)@, row_views(rows@), rows@.len() as int),
            n == rows_added_count(old(self)@, row_views(rows@), rows@.len() as int),
            n <= rows@.len(),
    {
        let mut n: usize = 0;
        let mut i: usize = 0;
        while i < rows.len()
            invariant
                self.wf(),
                i <= rows@.len(),
                n <= i,
                self@ == rows_added(old(self)@, row_views(rows@), i as int),
                n == rows_added_count(old(self)@, row_views(rows@), i as int),
            decreases rows.len() - i,
        {
            let value = copy_bytes(rows[i].value.as_slice());
            assert(row_views(rows@)[i as int] == rows@[i as int]@);
            if self.insert_row(rows[i].table, rows[i].key.as_slice(), value) {
                n = n + 1;
            }
            i = i + 1;
        }
        n
    }

    /// Delete rows of a table by key; gives how many were there.
    pub fn delete_table_rows(&mut self, table: TableName, keys: &Vec<Vec<u8>>) -> (n: usize)
        requires
            old(self).wf(),
        ensures
            final(self).wf(),
            final(self)@ == rows_removed(old(self)@, table, key_views(keys@).to_set()),
            n <= keys@.len(),
            key_views(keys@).no_duplicates() ==> n == key_views(keys@).filter(
                |k: Seq<u8>| old(self)@.contains_key((table, k)),
            ).len(),
    {
        let ghost present = |k: Seq<u8>| old(self)@.contains_key((table, k));
        let ghost all = key_views(keys@);
        let mut n: usize = 0;
        let mut i: usize = 0;
        proof {
            reveal(Seq::filter);
            assert(all.take(0).filter(present) =~= Seq::<Seq<u8>>::empty());
            assert(self@ =~= rows_removed(old(self)@, table, all.take(0).to_set()));
        }
        while i < keys.len()
            invariant
                self.wf(),
                i <= keys@.len(),
                n <= i,
                all == key_views(keys@),
                present == (|k: Seq<u8>| old(self)@.contains_key((table, k))),
                self@ == rows_removed(old(self)@, table, all.take(i as int).to_set()),
                all.no_duplicates() ==> n == all.take(i as int).filter(present).len(),
            decreases keys.len() - i,
        {
            let ghost before = self@;
            let ghost key = keys@[i as int]@;
            let deleted = self.delete_row(table, keys[i].as_slice());
            if deleted {
                n = n + 1;
            }
            proof {
                assert(all[i as int] == key);
                reveal(Seq::filter);
                assert(all.take(i + 1).drop_last() =~= all.take(i as int));
                assert(all.take(i + 1) =~= all.take(i as int).push(key));
                let (a, b) = (all.take(i as int), all.take(i + 1));
                assert forall|k: Seq<u8>| #[trigger] b.to_set().contains(k) <==> a.to_set().contains(
                    k,
                ) || k == key by {
                    if b.contains(k) {
                        let j = choose|j: int| 0 <= j < b.len() && b[j] == k;
                        if j < a.len() {
                            assert(a[j] == k);
                        }
                    }
                    if a.contains(k) {
                        let j = choose|j: int| 0 <= j < a.len() && a[j] == k;
                        assert(b[j] == k);
                    }
                    assert(b[i as int] == key);
                }
                assert(self@ =~= rows_removed(old(self)@, table, b.to_set()));
                if all.no_duplicates() {
                    if a.contains(key) {
                        let j = choose|j: int| 0 <= j < a.len() && a[j] == key;
                        assert(all[j] == all[i as int]);
                    }
                    assert(before.contains_key((table, key)) == present(key));
                }
            }
            i = i + 1;
        }
        proof {
            assert(all.take(i as int) =~= all);
        }
        n
    }

    /// The rows of a table whose keys begin with a prefix, in key order, the first `limit`
    /// of them.
    pub fn table_rows_with_key_prefix(&self, table: TableName, prefix: &[u8], limit: usize) -> (r:
        Vec<(Vec<u8>, Vec<u8>)>)
        requires
            self.wf(),
        ensures
            pair_views(r@) == rows_listed(self@, table, prefix@, limit),
            is_listing(
                listing(with_prefix(keys_of(self@, table), prefix@)),
                with_prefix(keys_of(self@, table), prefix@),
            ),
            listing(with_prefix(keys_of(self@, table), prefix@)).len() <= usize::MAX,
    {
        let full = make_full_key(table, prefix);
        let found = self.rows.keys_with_prefix(full.as_slice(), limit);
        let ghost dom = with_prefix(self.rows@.dom(), full@);
        let ghost all = listing(dom);
        let ghost keys = with_prefix(keys_of(self@, table), prefix@);
        let ghost tails = all.map_values(|k: Seq<u8>| k.skip(2));
        proof {
            assert forall|k: Seq<u8>| #[trigger] dom.contains(k) implies k == full_key(
                table,
                k.skip(2),
            ) && keys.contains(k.skip(2)) by {
                let t = choose|t: TableName| k == #[trigger] full_key(t, k.skip(2));
                assert(k.take(full@.len() as int)[0] == full@[0]);
                assert(k.take(full@.len() as int)[1] == full@[1]);
                assert(t == table);
                assert(k.skip(2).take(prefix@.len() as int) =~= k.take(full@.len() as int).skip(2));
                lemma_full_key(table, prefix@, table, prefix@);
            }
            assert forall|k: Seq<u8>| #[trigger] keys.contains(k) implies dom.contains(
                full_key(table, k),
            ) by {
                assert(has_prefix(k, prefix@));
                assert(full_key(table, k).take(full@.len() as int) =~= full_key(
                    table,
                    k.take(prefix@.len() as int),
                ));
            }
            lemma_listing_tails(all, table, dom, keys);
            lemma_listing_is(tails, keys);
        }
        let mut out: Vec<(Vec<u8>, Vec<u8>)> = Vec::new();
        let mut i: usize = 0;
        while i < found.len()
            invariant
                self.wf(),
                i <= found@.len(),
                full@ == full_key(table, prefix@),
                dom == with_prefix(self.rows@.dom(), full@),
                is_listing(all, dom),
                key_views(found@) == at_most(all, limit),
                keys == with_prefix(keys_of(self@, table), prefix@),
                tails == all.map_values(|k: Seq<u8>| k.skip(2)),
                forall|k: Seq<u8>| #[trigger]
                    dom.contains(k) ==> k == full_key(table, k.skip(2)) && keys.contains(k.skip(2)),
                pair_views(out@) == at_most(tails, limit).take(i as int).map_values(
                    |k: Seq<u8>| (k, self@[(table, k)]),
                ),
            decreases found.len() - i,
        {
            let ghost k = all[i as int];
            proof {
                assert(key_views(found@).len() == found@.len());
                assert(key_views(found@)[i as int] == found@[i as int]@);
                assert(i < at_most(all, limit).len() <= all.len());
                assert(tails.len() == all.len());
                assert(at_most(all, limit)[i as int] == all[i as int]);
                assert(found@[i as int]@ == k);
                assert(all.contains(k));
                assert(dom.contains(k));
                assert(at_most(tails, limit)[i as int] == k.skip(2));
                assert(self@.contains_key((table, k.skip(2))));
            }
            let key = tail_of(found[i].as_slice());
            let value = copy_bytes(self.rows.get(found[i].as_slice()).unwrap().as_slice());
            let ghost before = out@;
            out.push((key, value));
            proof {
                assert(pair_views(out@) =~= pair_views(before).push((key@, value@)));
                assert(at_most(tails, limit).take(i + 1) =~= at_most(tails, limit).take(
                    i as int,
                ).push(k.skip(2)));
                assert(pair_views(out@) =~= at_most(tails, limit).take(i + 1).map_values(
                    |k: Seq<u8>| (k, self@[(table, k)]),
                ));
            }
            i = i + 1;
        }
        proof {
            assert(key_views(found@).len() == found@.len());
            assert(at_most(tails, limit).len() == at_most(all, limit).len());
            assert(at_most(tails, limit).take(i as int) =~= at_most(tails, limit));
            assert(tails.len() == all.len());
        }
        out
    }

    /// All rows of a table, in key order.
    pub fn table_rows(&self, table: TableName) -> (r: Vec<(Vec<u8>, Vec<u8>)>)
        requires
            self.wf(),
        ensures
            pair_views(r@) == rows_listed(self@, table, Seq::empty(), usize::MAX),
            forall|i: int|
                0 <= i < r@.len() ==> self@.contains_key((table, (#[trigger] r@[i]).0@))
                    && self@[(table, r@[i].0@)] == r@[i].1@,
            forall|k: Seq<u8>|
                self@.contains_key((table, k)) ==> exists|i: int|
                    0 <= i < r@.len() && (#[trigger] r@[i]).0@ == k,
            forall|i: int, j: int|
                0 <= i < j < r@.len() ==> lex_lt((#[trigger] r@[i]).0@, (#[trigger] r@[j]).0@),
    {
        let empty: Vec<u8> = Vec::new();
        let limit: usize = usize::MAX;
        let r = self.table_rows_with_key_prefix(table, empty.as_slice(), limit);
        proof {
            assert(empty@ =~= Seq::<u8>::empty());
            let keys = with_prefix(keys_of(self@, table), Seq::empty());
            let all = listing(keys);
            assert(pair_views(r@).len() == r@.len());
            assert forall|i: int| 0 <= i < r@.len() implies (#[trigger] r@[i]).0@ == all[i]
                && r@[i].1@ == self@[(table, all[i])] by {
                assert(pair_views(r@)[i] == (r@[i].0@, r@[i].1@));
            }
            assert forall|i: int| 0 <= i < r@.len() implies self@.contains_key(
                (table, (#[trigger] r@[i]).0@),
            ) && self@[(table, r@[i].0@)] == r@[i].1@ by {
                assert(all.contains(all[i]));
                assert(keys.contains(all[i]));
            }
            assert forall|k: Seq<u8>| self@.contains_key((table, k)) implies exists|i: int|
                0 <= i < r@.len() && (#[trigger] r@[i]).0@ == k by {
                assert(k.take(0) =~= Seq::<u8>::empty());
                assert(keys.contains(k));
                assert(all.contains(k));
                let i = choose|i: int| 0 <= i < all.len() && all[i] == k;
                assert(r@[i].0@ == k);
            }
            assert forall|i: int, j: int| 0 <= i < j < r@.len() implies lex_lt(
                (#[trigger] r@[i]).0@,
                (#[trigger] r@[j]).0@,
            ) by {
                assert(lex_lt(all[i], all[j]));
            }
        }
        r
    }

    /// How many rows a table has.
    pub fn table_row_count(&self, table: TableName) -> (n: usize)
        requires
            self.wf(),
        ensures
            keys_of(self@, table).finite(),
            n == keys_of(self@, table).len(),
    {
        let rows = self.table_rows(table);
        proof {
            let keys = with_prefix(keys_of(self@, table), Seq::empty());
            let all = listing(keys);
            assert(keys =~= keys_of(self@, table)) by {
                assert forall|k: Seq<u8>| has_prefix(k, Seq::<u8>::empty()) by {
                    assert(k.take(0) =~= Seq::<u8>::empty());
                }
            }
            assert forall|i: int, j: int|
                0 <= i < pair_views(rows@).len() && 0 <= j < pair_views(rows@).len() && i
                    != j implies rows@[i].0@ != rows@[j].0@ by {
                crate::bytes::lemma_lex_irreflexive(rows@[i].0@);
                if i < j {
                    assert(lex_lt(rows@[i].0@, rows@[j].0@));
                } else {
                    assert(lex_lt(rows@[j].0@, rows@[i].0@));
                }
            }
            let ks = rows@.map_values(|r: (Vec<u8>, Vec<u8>)| r.0@);
            assert(ks.no_duplicates());
            assert(ks.to_set() =~= keys_of(self@, table)) by {
                assert forall|k: Seq<u8>| #[trigger] keys_of(self@, table).contains(
                    k,
                ) implies ks.contains(k) by {
                    let i = choose|i: int| 0 <= i < rows@.len() && (#[trigger] rows@[i]).0@ == k;
                    assert(ks[i] == k);
                }
                assert forall|k: Seq<u8>| ks.contains(k) implies #[trigger] keys_of(
                    self@,
                    table,
                ).contains(k) by {
                    let i = choose|i: int| 0 <= i < ks.len() && ks[i] == k;
                    assert(rows@[i].0@ == k);
                }
            }
            ks.unique_seq_to_set();
            vstd::seq_lib::seq_to_set_is_finite(ks);
        }
        rows.len()
    }
}

/// What follows the table number of a key.
fn tail_of(s: &[u8]) -> (r: Vec<u8>)
    requires
        s@.len() >= 2,
    ensures
        r@ == s@.skip(2),
{
    let mut out: Vec<u8> = Vec::new();
    let mut i: usize = 2;
    while i < s.len()
        invariant
            2 <= i <= s@.len(),
            out@ == s@.subrange(2, i as int),
        decreases s.len() - i,
    {
        out.push(s[i]);
        assert(s@.subrange(2, i + 1) =~= s@.subrange(2, i as int).push(s@[i as int]));
        i = i + 1;
    }
    assert(out@ =~= s@.skip(2));
    out
}

/// All rows of a table are listed: each under its own key, and each once.
pub proof fn lemma_rows_listed(m: Rows, t: TableName, prefix: Seq<u8>)
    requires
        countable(keys_of(m, t)),
    ensures
        keys_listed(m, t, prefix, usize::MAX).no_duplicates(),
        forall|k: Seq<u8>| #[trigger]
            keys_listed(m, t, prefix, usize::MAX).contains(k) <==> m.contains_key((t, k))
                && has_prefix(k, prefix),
{
    lemma_prefix_listed(keys_of(m, t), prefix);
    assert forall|k: Seq<u8>| #[trigger]
        keys_listed(m, t, prefix, usize::MAX).contains(k) <==> m.contains_key((t, k))
            && has_prefix(k, prefix) by {
        assert(keys_of(m, t).contains(k) <==> m.contains_key((t, k)));
    }
}

/// The first rows under a prefix come in key order: a row that is left out comes after every row
/// that is listed, and only where as many are listed as were asked for.
pub proof fn law_first_rows_come_first(m: Rows, t: TableName, prefix: Seq<u8>, limit: usize)
    requires
        countable(keys_of(m, t)),
    ensures
        ({
            let rows = rows_listed(m, t, prefix, limit);
            &&& rows.len() <= limit
            &&& forall|i: int|
                0 <= i < rows.len() ==> m.contains_key((t, (#[trigger] rows[i]).0)) && has_prefix(
                    rows[i].0,
                    prefix,
                ) && rows[i].1 == m[(t, rows[i].0)]
            &&& forall|i: int, j: int|
                0 <= i < j < rows.len() ==> lex_lt((#[trigger] rows[i]).0, (#[trigger] rows[j]).0)
            &&& forall|k: Seq<u8>| #[trigger]
                m.contains_key((t, k)) && has_prefix(k, prefix) ==> rows.contains((k, m[(t, k)]))
                    || (rows.len() == limit && forall|i: int|
                    0 <= i < rows.len() ==> lex_lt((#[trigger] rows[i]).0, k))
            &&& keys_of(m, t).len() <= limit ==> forall|k: Seq<u8>| #[trigger]
                m.contains_key((t, k)) && has_prefix(k, prefix) ==> rows.contains((k, m[(t, k)]))
        }),
{
    lemma_prefix_listed(keys_of(m, t), prefix);
    let all = listing(with_prefix(keys_of(m, t), prefix));
    let rows = rows_listed(m, t, prefix, limit);
    assert forall|i: int| 0 <= i < rows.len() implies m.contains_key((t, (#[trigger] rows[i]).0))
        && has_prefix(rows[i].0, prefix) && rows[i].1 == m[(t, rows[i].0)] by {
        assert(rows[i].0 == all[i]);
        assert(all.contains(all[i]));
        assert(keys_of(m, t).contains(all[i]));
    }
    assert forall|i: int, j: int| 0 <= i < j < rows.len() implies lex_lt(
        (#[trigger] rows[i]).0,
        (#[trigger] rows[j]).0,
    ) by {
        assert(lex_lt(all[i], all[j]));
    }
    assert forall|k: Seq<u8>| #[trigger]
        m.contains_key((t, k)) && has_prefix(k, prefix) implies rows.contains((k, m[(t, k)])) || (
    rows.len() == limit && forall|i: int|
        0 <= i < rows.len() ==> lex_lt((#[trigger] rows[i]).0, k)) by {
        assert(keys_of(m, t).contains(k));
        assert(all.contains(k));
        let at = choose|at: int| 0 <= at < all.len() && all[at] == k;
        if at < rows.len() {
            assert(rows[at] == (k, m[(t, k)]));
        } else {
            assert forall|i: int| 0 <= i < rows.len() implies lex_lt((#[trigger] rows[i]).0, k) by {
                assert(rows[i].0 == all[i]);
                assert(lex_lt(all[i], all[at]));
            }
        }
    }
    if keys_of(m, t).len() <= limit {
        assert forall|k: Seq<u8>| #[trigger]
            m.contains_key((t, k)) && has_prefix(k, prefix) implies rows.contains(
            (k, m[(t, k)]),
        ) by {
            assert(keys_of(m, t).contains(k));
            assert(all.contains(k));
            let at = choose|at: int| 0 <= at < all.len() && all[at] == k;
            assert(rows[at] == (k, m[(t, k)]));
        }
    }
}

/// What adding some rows does: each of them is there afterwards, rows that were there stay as they
/// are, and nothing else comes in.
pub proof fn law_added_rows_are_there(m: Rows, rows: Seq<RowView>, n: int)
    requires
        0 <= n <= rows.len(),
    ensures
        forall|i: int|
            0 <= i < n ==> rows_added(m, rows, n).contains_key(
                ((#[trigger] rows[i]).table, rows[i].key),
            ),
        forall|k: (TableName, Seq<u8>)| #[trigger]
            m.contains_key(k) ==> rows_added(m, rows, n).contains_key(k) && rows_added(m, rows, n)[k]
                == m[k],
        forall|k: (TableName, Seq<u8>)| #[trigger]
            rows_added(m, rows, n).contains_key(k) && !m.contains_key(k) ==> exists|i: int|
                0 <= i < n && (#[trigger] rows[i]).table == k.0 && rows[i].key == k.1
                    && rows[i].value == rows_added(m, rows, n)[k],
    decreases n,
{
    if n > 0 {
        law_added_rows_are_there(m, rows, n - 1);
        let before = rows_added(m, rows, n - 1);
        let after = rows_added(m, rows, n);
        assert forall|k: (TableName, Seq<u8>)| #[trigger]
            after.contains_key(k) && !m.contains_key(k) implies exists|i: int|
            0 <= i < n && (#[trigger] rows[i]).table == k.0 && rows[i].key == k.1 && rows[i].value
                == after[k] by {
            if before.contains_key(k) {
                let i = choose|i: int|
                    0 <= i < n - 1 && (#[trigger] rows[i]).table == k.0 && rows[i].key == k.1
                        && rows[i].value == before[k];
                assert(rows[i].value == after[k]);
            } else {
                assert(rows[n - 1].table == k.0);
            }
        }
    }
}

} // verus!
