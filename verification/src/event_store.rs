//! The durable event store: canonical bytes by event id, the ready and timestamp
//! indexes, the edges of blocked events, and event labels.
use vstd::prelude::*;
use crate::bytes::{
    be64, copy_bytes, extend_bytes, has_prefix, id_at, id_bytes, id_pair, lex_lt, put_be64, EventId,
};
use crate::hash::{event_id, event_id_of};
use crate::table::{
    at_most, is_listing, key_views, lemma_listing_is, listing, with_prefix, Duplicate, Table,
};
use crate::types::{EventIndexEntry, EventLabel, EventRecord, EventScope, EventStatus, RecordView};

verus! {

/// The value of an index row whose key says everything.
pub struct Mark;

impl View for Mark {
    type V = ();

    open spec fn view(&self) -> () {
        ()
    }
}

/// One stored event.
pub struct StoredEvent {
    pub timestamp: u64,
    pub status: EventStatus,
    pub scope: EventScope,
    pub workspace_id: Option<EventId>,
    pub canonical_bytes: Vec<u8>,
}

/// What a stored event says.
pub struct EventRow {
    pub timestamp: u64,
    pub status: EventStatus,
    pub scope: EventScope,
    pub workspace_id: Option<EventId>,
    pub canonical_bytes: Seq<u8>,
}

impl View for StoredEvent {
    type V = EventRow;

    open spec fn view(&self) -> EventRow {
        EventRow {
            timestamp: self.timestamp,
            status: self.status,
            scope: self.scope,
            workspace_id: self.workspace_id,
            canonical_bytes: self.canonical_bytes@,
        }
    }
}

impl Duplicate for Mark {
    fn duplicate(&self) -> (r: Mark) {
        Mark
    }
}

impl Duplicate for StoredEvent {
    fn duplicate(&self) -> (r: StoredEvent) {
        StoredEvent {
            timestamp: self.timestamp,
            status: self.status,
            scope: self.scope,
            workspace_id: self.workspace_id,
            canonical_bytes: copy_bytes(self.canonical_bytes.as_slice()),
        }
    }
}

/// The stored events by id, the edges `(missing dependency, blocked event)`, and the
/// labels `(event, label)`.
#[verifier::ext_equal]
pub struct EventState {
    pub events: Map<Seq<u8>, EventRow>,
    pub edges: Set<(Seq<u8>, Seq<u8>)>,
    pub labels: Set<(Seq<u8>, Seq<u8>)>,
}

impl EventState {
    /// Whether an event is stored and applied.
    pub open spec fn applied(self, id: Seq<u8>) -> bool {
        self.events.contains_key(id) && self.events[id].status is Applied
    }

    /// Whether an event is stored and ready.
    pub open spec fn ready(self, id: Seq<u8>) -> bool {
        self.events.contains_key(id) && self.events[id].status is Ready
    }

    /// The state with one more event, unless its id is stored already.
    pub open spec fn with_event(self, id: Seq<u8>, row: EventRow) -> EventState {
        if self.events.contains_key(id) {
            self
        } else {
            EventState { events: self.events.insert(id, row), ..self }
        }
    }

    /// The state with the status of an event moved, when it is at `from`.
    pub open spec fn with_status(
        self,
        id: Seq<u8>,
        from: EventStatus,
        to: EventStatus,
    ) -> EventState {
        if self.events.contains_key(id) && self.events[id].status == from {
            EventState {
                events: self.events.insert(id, (EventRow { status: to, ..self.events[id] })),
                ..self
            }
        } else {
            self
        }
    }

    /// The state without an event and without the edges that hold it back; its
    /// labels stay.
    pub open spec fn purged(self, id: Seq<u8>) -> EventState {
        if self.events.contains_key(id) {
            EventState {
                events: self.events.remove(id),
                edges: self.edges.filter(|e: (Seq<u8>, Seq<u8>)| e.1 != id),
                ..self
            }
        } else {
            self
        }
    }

    /// The events that are not applied.
    pub open spec fn pending(self) -> Set<Seq<u8>> {
        self.events.dom().filter(|id: Seq<u8>| !(self.events[id].status is Applied))
    }

    /// The events that are blocked.
    pub open spec fn blocked(self) -> Set<Seq<u8>> {
        self.events.dom().filter(|id: Seq<u8>| self.events[id].status is Blocked)
    }

    /// The events that wait for `dep`.
    pub open spec fn waiting_for(self, dep: Seq<u8>) -> Set<Seq<u8>> {
        Set::new(|b: Seq<u8>| self.edges.contains((dep, b)))
    }

    /// The state with labels added.
    pub open spec fn with_labels(self, labels: Seq<(Seq<u8>, Seq<u8>)>) -> EventState {
        EventState { labels: self.labels.union(labels.to_set()), ..self }
    }

    /// The labels of an event.
    pub open spec fn labels_of(self, id: Seq<u8>) -> Set<Seq<u8>> {
        Set::new(|l: Seq<u8>| self.labels.contains((id, l)))
    }
}

/// The keys of some edges: the missing dependency and then the blocked event.
pub open spec fn edge_keys(edges: Set<(Seq<u8>, Seq<u8>)>) -> Set<Seq<u8>> {
    Set::new(|k: Seq<u8>| k.len() == 64 && edges.contains((k.take(32), k.skip(32))))
}

/// The row that a record gets in the store.
pub open spec fn row_of_record(record: RecordView, status: EventStatus) -> EventRow {
    EventRow {
        timestamp: record.timestamp,
        status,
        scope: record.scope,
        workspace_id: record.workspace_id,
        canonical_bytes: record.canonical_bytes,
    }
}

/// The key of an event in an index by time.
pub open spec fn time_key(timestamp: u64, id: Seq<u8>) -> Seq<u8> {
    be64(timestamp) + id
}

/// `k` is the time key of a stored event whose row satisfies `keep`.
pub open spec fn is_time_key_of(
    events: Map<Seq<u8>, EventRow>,
    keep: spec_fn(EventRow) -> bool,
    k: Seq<u8>,
) -> bool {
    &&& k.len() == 40
    &&& events.contains_key(k.skip(8))
    &&& keep(events[k.skip(8)])
    &&& k.take(8) == be64(events[k.skip(8)].timestamp)
}

/// The time keys of the ready events.
pub open spec fn ready_keys(events: Map<Seq<u8>, EventRow>) -> Set<Seq<u8>> {
    Set::new(|k: Seq<u8>| is_time_key_of(events, |r: EventRow| r.status is Ready, k))
}

/// The time keys of the shared events.
pub open spec fn shared_keys(events: Map<Seq<u8>, EventRow>) -> Set<Seq<u8>> {
    Set::new(|k: Seq<u8>| is_time_key_of(events, |r: EventRow| r.scope is Shared, k))
}

/// The shared events, in the order of timestamps and then ids.
pub open spec fn shared_ids(events: Map<Seq<u8>, EventRow>) -> Seq<Seq<u8>> {
    listing(shared_keys(events)).map_values(|k: Seq<u8>| k.skip(8))
}

/// The index entry that a time key stands for.
pub open spec fn entry_at(events: Map<Seq<u8>, EventRow>, k: Seq<u8>, e: EventIndexEntry) -> bool {
    &&& e.event_id@ == k.skip(8)
    &&& e.timestamp == events[k.skip(8)].timestamp
    &&& e.workspace_id == events[k.skip(8)].workspace_id
}

/// The two parts of a time key.
pub proof fn lemma_time_key(timestamp: u64, id: Seq<u8>)
    requires
        id.len() == 32,
    ensures
        time_key(timestamp, id).len() == 40,
        time_key(timestamp, id).take(8) == be64(timestamp),
        time_key(timestamp, id).skip(8) == id,
{
    assert(be64(timestamp).len() == 8);
    assert(time_key(timestamp, id).take(8) =~= be64(timestamp));
    assert(time_key(timestamp, id).skip(8) =~= id);
}

/// A time key is its two parts.
pub proof fn lemma_time_key_split(k: Seq<u8>)
    requires
        k.len() == 40,
    ensures
        k == k.take(8) + k.skip(8),
        k.skip(8).len() == 32,
{
    assert(k =~= k.take(8) + k.skip(8));
}

/// The 64 bytes of a key, its two halves exchanged.
spec fn swap_halves(k: Seq<u8>) -> Seq<u8> {
    k.skip(32) + k.take(32)
}

proof fn lemma_pair(a: Seq<u8>, b: Seq<u8>)
    requires
        a.len() == 32,
        b.len() == 32,
    ensures
        (a + b).len() == 64,
        (a + b).take(32) == a,
        (a + b).skip(32) == b,
        swap_halves(a + b) == b + a,
{
    assert((a + b).take(32) =~= a);
    assert((a + b).skip(32) =~= b);
}

proof fn lemma_halves(k: Seq<u8>)
    requires
        k.len() == 64,
    ensures
        k == k.take(32) + k.skip(32),
        k.take(32).len() == 32,
        k.skip(32).len() == 32,
        swap_halves(k).len() == 64,
        swap_halves(swap_halves(k)) == k,
{
    assert(k =~= k.take(32) + k.skip(32));
    lemma_pair(k.skip(32), k.take(32));
}

/// The event store.
pub struct EventStore {
    events: Table<StoredEvent>,
    ready: Table<Mark>,
    stamps: Table<Mark>,
    blocked_by_missing: Table<Mark>,
    missing_by_blocked: Table<Mark>,
    labels: Table<Mark>,
}

impl View for EventStore {
    type V = EventState;

    closed spec fn view(&self) -> EventState {
        EventState {
            events: self.events@,
            edges: Set::new(
                |e: (Seq<u8>, Seq<u8>)|
                    e.0.len() == 32 && e.1.len() == 32 && self.blocked_by_missing@.contains_key(
                        e.0 + e.1,
                    ),
            ),
            labels: Set::new(
                |e: (Seq<u8>, Seq<u8>)|
                    e.0.len() == 32 && self.labels@.contains_key(e.0 + e.1),
            ),
        }
    }
}

/// The key of an event in an index by time.
pub fn make_time_key(timestamp: u64, id: &EventId) -> (r: Vec<u8>)
    ensures
        r@ == time_key(timestamp, id@),
{
    let mut out: Vec<u8> = Vec::new();
    put_be64(&mut out, timestamp);
    extend_bytes(&mut out, id.as_slice());
    assert(out@ =~= time_key(timestamp, id@));
    out
}

impl EventStore {
    /// Every index agrees with the stored events.
    pub closed spec fn wf(&self) -> bool {
        &&& self.events.wf()
        &&& self.ready.wf()
        &&& self.stamps.wf()
        &&& self.blocked_by_missing.wf()
        &&& self.missing_by_blocked.wf()
        &&& self.labels.wf()
        &&& forall|k: Seq<u8>| #[trigger] self.events@.contains_key(k) ==> k.len() == 32
        &&& self.ready@.dom() == ready_keys(self.events@)
        &&& self.stamps@.dom() == shared_keys(self.events@)
        &&& forall|k: Seq<u8>| #[trigger]
            self.blocked_by_missing@.contains_key(k) ==> k.len() == 64
                && self.missing_by_blocked@.contains_key(swap_halves(k))
        &&& forall|k: Seq<u8>| #[trigger]
            self.missing_by_blocked@.contains_key(k) ==> k.len() == 64
                && self.blocked_by_missing@.contains_key(swap_halves(k))
    }

    /// Ids are 32 bytes long, in events and edges alike.
    pub proof fn lemma_ids(&self)
        requires
            self.wf(),
        ensures
            forall|k: Seq<u8>| #[trigger] self@.events.contains_key(k) ==> k.len() == 32,
            forall|e: (Seq<u8>, Seq<u8>)| #[trigger]
                self@.edges.contains(e) ==> e.0.len() == 32 && e.1.len() == 32,
    {
    }

    /// There are finitely many events, no more than a `usize` can count.
    pub proof fn lemma_finite(&self)
        requires
            self.wf(),
        ensures
            self@.events.dom().finite(),
            self@.events.dom().len() <= usize::MAX,
    {
        crate::table::lemma_table_finite(&self.events);
    }

    /// A store without events.
    pub fn new() -> (s: EventStore)
        ensures
            s.wf(),
            s@ == (EventState {
                events: Map::empty(),
                edges: Set::empty(),
                labels: Set::empty(),
            }),
    {
        let s = EventStore {
            events: Table::new(),
            ready: Table::new(),
            stamps: Table::new(),
            blocked_by_missing: Table::new(),
            missing_by_blocked: Table::new(),
            labels: Table::new(),
        };
        proof {
            assert(s.ready@.dom() =~= ready_keys(s.events@));
            assert(s.stamps@.dom() =~= shared_keys(s.events@));
            assert(s@.events =~= Map::empty());
            assert(s@.edges =~= Set::empty());
            assert(s@.labels =~= Set::empty());
        }
        s
    }

    /// A copy of the store.
    pub fn duplicate(&self) -> (r: EventStore)
        requires
            self.wf(),
        ensures
            r.wf(),
            r@ == self@,
    {
        EventStore {
            events: self.events.duplicate(),
            ready: self.ready.duplicate(),
            stamps: self.stamps.duplicate(),
            blocked_by_missing: self.blocked_by_missing.duplicate(),
            missing_by_blocked: self.missing_by_blocked.duplicate(),
            labels: self.labels.duplicate(),
        }
    }

    /// Whether an event is stored.
    pub fn has_event(&self, id: &EventId) -> (r: bool)
        requires
            self.wf(),
        ensures
            r == self@.events.contains_key(id@),
    {
        self.events.contains(id.as_slice())
    }

    /// The canonical bytes of a stored event.
    pub fn event_bytes(&self, id: &EventId) -> (r: Option<Vec<u8>>)
        requires
            self.wf(),
        ensures
            r.is_some() == self@.events.contains_key(id@),
            r matches Some(b) ==> b@ == self@.events[id@].canonical_bytes,
    {
        match self.events.get(id.as_slice()) {
            Some(row) => Some(copy_bytes(row.canonical_bytes.as_slice())),
            None => None,
        }
    }

    /// The status of a stored event.
    pub fn event_status(&self, id: &EventId) -> (r: Option<EventStatus>)
        requires
            self.wf(),
        ensures
            r == (if self@.events.contains_key(id@) {
                Some(self@.events[id@].status)
            } else {
                None
            }),
    {
        match self.events.get(id.as_slice()) {
            Some(row) => Some(row.status),
            None => None,
        }
    }

    /// Whether a stored event is shared, and the workspace that it belongs to.
    pub fn event_facts(&self, id: &EventId) -> (r: Option<(bool, Option<EventId>)>)
        requires
            self.wf(),
        ensures
            r == (if self@.events.contains_key(id@) {
                Some((self@.events[id@].scope is Shared, self@.events[id@].workspace_id))
            } else {
                None
            }),
    {
        match self.events.get(id.as_slice()) {
            Some(row) => Some((row.scope.is_shared(), row.workspace_id)),
            None => None,
        }
    }

    /// Whether an event is stored and applied.
    pub fn event_is_applied(&self, id: &EventId) -> (r: bool)
        requires
            self.wf(),
        ensures
            r == self@.applied(id@),
    {
        match self.events.get(id.as_slice()) {
            Some(row) => row.status == EventStatus::Applied,
            None => false,
        }
    }

    /// Store an event under its id; tells whether it is new. A stored event is kept
    /// as it is.
    pub fn insert_event(&mut self, record: &EventRecord, status: EventStatus) -> (inserted: bool)
        requires
            old(self).wf(),
        ensures
            final(self).wf(),
            inserted == !old(self)@.events.contains_key(
                event_id_of(record@.canonical_bytes)@,
            ),
            final(self)@ == old(self)@.with_event(
                event_id_of(record@.canonical_bytes)@,
                row_of_record(record@, status),
            ),
    {
        let id = event_id(record.canonical_bytes.as_slice());
        if self.events.contains(id.as_slice()) {
            return false;
        }
        let ghost before = *self;
        let row = StoredEvent {
            timestamp: record.timestamp,
            status,
            scope: record.scope,
            workspace_id: record.workspace_id,
            canonical_bytes: copy_bytes(record.canonical_bytes.as_slice()),
        };
        let _ = self.events.insert(id_bytes(&id), row);
        if status == EventStatus::Ready {
            let _ = self.ready.insert(make_time_key(record.timestamp, &id), Mark);
        }
        if record.scope.is_shared() {
            let _ = self.stamps.insert(make_time_key(record.timestamp, &id), Mark);
        }
        proof {
            let key = time_key(record.timestamp, id@);
            let row = row_of_record(record@, status);
            lemma_time_key(record.timestamp, id@);
            lemma_index_insert(before.events@, |r: EventRow| r.status is Ready, id@, row);
            lemma_index_insert(before.events@, |r: EventRow| r.scope is Shared, id@, row);
            assert(self.ready@.dom() =~= ready_keys(self.events@));
            assert(self.stamps@.dom() =~= shared_keys(self.events@));
            assert(self@ =~= before@.with_event(id@, row));
        }
        true
    }

    /// Move the status of an event, when it stands at `from`; tells whether it did.
    pub fn set_event_status(&mut self, id: &EventId, from: EventStatus, to: EventStatus) -> (moved:
        bool)
        requires
            old(self).wf(),
        ensures
            final(self).wf(),
            moved == (old(self)@.events.contains_key(id@) && old(self)@.events[id@].status == from),
            final(self)@ == old(self)@.with_status(id@, from, to),
    {
        let timestamp: u64 = match self.events.get(id.as_slice()) {
            Some(row) => {
                if row.status != from {
                    return false;
                }
                row.timestamp
            },
            None => {
                return false;
            },
        };
        let ghost before = *self;
        let taken = self.events.remove(id.as_slice());
        let mut row = taken.unwrap();
        row.status = to;
        let _ = self.events.insert(id_bytes(id), row);
        if from == EventStatus::Ready {
            let _ = self.ready.remove(make_time_key(timestamp, id).as_slice());
        }
        if to == EventStatus::Ready {
            let _ = self.ready.insert(make_time_key(timestamp, id), Mark);
        }
        proof {
            let old_row = before.events@[id@];
            let new_row = EventRow { status: to, ..old_row };
            lemma_time_key(timestamp, id@);
            let gone = before.events@.remove(id@);
            assert(self.events@ =~= before.events@.insert(id@, new_row));
            assert(self.events@ =~= gone.insert(id@, new_row));
            lemma_index_remove(before.events@, |r: EventRow| r.status is Ready, id@);
            lemma_index_remove(before.events@, |r: EventRow| r.scope is Shared, id@);
            lemma_index_insert(gone, |r: EventRow| r.status is Ready, id@, new_row);
            lemma_index_insert(gone, |r: EventRow| r.scope is Shared, id@, new_row);
            assert(self.ready@.dom() =~= ready_keys(self.events@));
            assert(self.stamps@.dom() =~= shared_keys(self.events@));
            assert(self@ =~= before@.with_status(id@, from, to));
        }
        true
    }

    /// The first ready event in the order of timestamps and then ids.
    pub fn next_ready_event(&self) -> (r: Option<EventId>)
        requires
            self.wf(),
        ensures
            r.is_none() ==> forall|id: Seq<u8>| !#[trigger] self@.ready(id),
            r matches Some(id) ==> self@.ready(id@),
            r matches Some(id) ==> forall|other: Seq<u8>| #[trigger]
                self@.ready(other) && other != id@ ==> lex_lt(
                    time_key(self@.events[id@].timestamp, id@),
                    time_key(self@.events[other].timestamp, other),
                ),
    {
        let empty: Vec<u8> = Vec::new();
        let keys = self.ready.keys_with_prefix(empty.as_slice(), 1);
        let ghost all = listing(with_prefix(self.ready@.dom(), empty@));
        proof {
            assert forall|other: Seq<u8>| #[trigger] self@.ready(other) implies exists|j: int|
                0 <= j < all.len() && all[j] == time_key(self@.events[other].timestamp, other) by {
                let k = time_key(self@.events[other].timestamp, other);
                lemma_time_key(self@.events[other].timestamp, other);
                assert(has_prefix(k, empty@)) by {
                    assert(k.take(0) =~= empty@);
                }
                assert(ready_keys(self.events@).contains(k));
                assert(self.ready@.dom().contains(k));
                assert(with_prefix(self.ready@.dom(), empty@).contains(k));
                assert(all.contains(k));
            }
        }
        if keys.len() == 0 {
            proof {
                assert(key_views(keys@).len() == 0);
                assert forall|id: Seq<u8>| !#[trigger] self@.ready(id) by {
                    if self@.ready(id) {
                        let j = choose|j: int|
                            0 <= j < all.len() && all[j] == time_key(self@.events[id].timestamp, id);
                        assert(all.len() > 0);
                    }
                }
            }
            return None;
        }
        proof {
            assert(key_views(keys@).len() == keys@.len());
            assert(key_views(keys@)[0] == keys@[0]@);
            assert(all[0] == keys@[0]@);
            assert(all.contains(all[0]));
            assert(with_prefix(self.ready@.dom(), empty@).contains(all[0]));
            assert(ready_keys(self.events@).contains(all[0]));
            lemma_time_key_split(all[0]);
        }
        let id = id_at(keys[0].as_slice(), 8);
        proof {
            assert(id@ =~= all[0].skip(8));
            assert(time_key(self@.events[id@].timestamp, id@) == all[0]);
            assert forall|other: Seq<u8>| #[trigger] self@.ready(other) && other != id@ implies lex_lt(
                time_key(self@.events[id@].timestamp, id@),
                time_key(self@.events[other].timestamp, other),
            ) by {
                let j = choose|j: int|
                    0 <= j < all.len() && all[j] == time_key(self@.events[other].timestamp, other);
                lemma_time_key(self@.events[other].timestamp, other);
                assert(j != 0);
                assert(lex_lt(all[0], all[j]));
            }
        }
        Some(id)
    }

    /// Record that an event waits for a dependency; tells whether the edge is new.
    pub fn insert_blocked_event_missing_dep(&mut self, dep: &EventId, blocked: &EventId) -> (added:
        bool)
        requires
            old(self).wf(),
        ensures
            final(self).wf(),
            added == !old(self)@.edges.contains((dep@, blocked@)),
            final(self)@ == (EventState {
                edges: old(self)@.edges.insert((dep@, blocked@)),
                ..old(self)@
            }),
    {
        let ghost before = *self;
        let added = self.blocked_by_missing.insert(id_pair(dep, blocked), Mark);
        let _ = self.missing_by_blocked.insert(id_pair(blocked, dep), Mark);
        proof {
            lemma_pair(dep@, blocked@);
            lemma_pair(blocked@, dep@);
            assert forall|e: (Seq<u8>, Seq<u8>)| #[trigger] self@.edges.contains(e) <==> before@.edges.insert(
                (dep@, blocked@),
            ).contains(e) by {
                if e.0.len() == 32 && e.1.len() == 32 {
                    lemma_pair(e.0, e.1);
                }
            }
            assert forall|k: Seq<u8>| #[trigger]
                self.blocked_by_missing@.contains_key(k) implies k.len() == 64
                && self.missing_by_blocked@.contains_key(swap_halves(k)) by {
                if k != dep@ + blocked@ {
                    assert(before.blocked_by_missing@.contains_key(k));
                }
            }
            assert forall|k: Seq<u8>| #[trigger]
                self.missing_by_blocked@.contains_key(k) implies k.len() == 64
                && self.blocked_by_missing@.contains_key(swap_halves(k)) by {
                if k != blocked@ + dep@ {
                    assert(before.missing_by_blocked@.contains_key(k));
                }
            }
            assert(self@.edges =~= before@.edges.insert((dep@, blocked@)));
            assert(self@ =~= (EventState { edges: self@.edges, ..before@ }));
        }
        added
    }

    /// Whether an event waits for some dependency.
    pub fn blocked_event_has_missing_deps(&self, blocked: &EventId) -> (r: bool)
        requires
            self.wf(),
        ensures
            r == (exists|dep: Seq<u8>| self@.edges.contains((dep, blocked@))),
    {
        let keys = self.missing_by_blocked.keys_with_prefix(blocked.as_slice(), 1);
        let ghost dom = with_prefix(self.missing_by_blocked@.dom(), blocked@);
        let ghost all = listing(dom);
        proof {
            if keys@.len() > 0 {
                assert(key_views(keys@)[0] == keys@[0]@);
                assert(all.contains(all[0]));
                let k = all[0];
                assert(dom.contains(k));
                assert(self.missing_by_blocked@.contains_key(k));
                lemma_halves(k);
                assert(k.take(32) =~= blocked@);
                assert(self.blocked_by_missing@.contains_key(swap_halves(k)));
                assert(self@.edges.contains((k.skip(32), blocked@)));
            } else {
                assert(key_views(keys@).len() == 0);
                assert(all.len() == 0);
                if exists|dep: Seq<u8>| self@.edges.contains((dep, blocked@)) {
                    let dep = choose|dep: Seq<u8>| self@.edges.contains((dep, blocked@));
                    lemma_pair(dep, blocked@);
                    assert(self.missing_by_blocked@.contains_key(blocked@ + dep));
                    assert((blocked@ + dep).take(32) =~= blocked@);
                    assert(dom.contains(blocked@ + dep));
                    assert(all.contains(blocked@ + dep));
                }
            }
        }
        keys.len() > 0
    }

    /// Remove one event's canonical bytes and the index rows that make it replayable or
    /// schedulable; tells whether it was stored. Labels stay.
    pub fn purge_event(&mut self, id: &EventId) -> (purged: bool)
        requires
            old(self).wf(),
        ensures
            final(self).wf(),
            purged == old(self)@.events.contains_key(id@),
            final(self)@ == old(self)@.purged(id@),
    {
        let (timestamp, ready, shared): (u64, bool, bool) = match self.events.get(id.as_slice()) {
            Some(row) => (row.timestamp, row.status == EventStatus::Ready, row.scope.is_shared()),
            None => {
                return false;
            },
        };
        let ghost start = *self;
        if ready {
            let _ = self.ready.remove(make_time_key(timestamp, id).as_slice());
        }
        if shared {
            let _ = self.stamps.remove(make_time_key(timestamp, id).as_slice());
        }
        let _ = self.events.remove(id.as_slice());
        proof {
            lemma_time_key(timestamp, id@);
            lemma_index_remove(start.events@, |r: EventRow| r.status is Ready, id@);
            lemma_index_remove(start.events@, |r: EventRow| r.scope is Shared, id@);
            assert(self.ready@.dom() =~= ready_keys(self.events@));
            assert(self.stamps@.dom() =~= shared_keys(self.events@));
            assert(self@.edges =~= start@.edges);
        }
        let ghost mid = *self;
        let limit: usize = usize::MAX;
        let keys = self.missing_by_blocked.keys_with_prefix(id.as_slice(), limit);
        let ghost dom = with_prefix(mid.missing_by_blocked@.dom(), id@);
        let mut i: usize = 0;
        while i < keys.len()
            invariant
                self.wf(),
                i <= keys@.len(),
                dom == with_prefix(mid.missing_by_blocked@.dom(), id@),
                is_listing(key_views(keys@), dom),
                mid.wf(),
                self@.events == mid@.events,
                self@.labels == mid@.labels,
                forall|e: (Seq<u8>, Seq<u8>)| #[trigger]
                    self@.edges.contains(e) <==> mid@.edges.contains(e) && !(e.1 == id@
                        && key_views(keys@).take(i as int).contains(e.1 + e.0)),
            decreases keys.len() - i,
        {
            let ghost before = *self;
            let ghost all = key_views(keys@);
            proof {
                assert(all[i as int] == keys@[i as int]@);
                assert(all.contains(all[i as int]));
                assert(dom.contains(all[i as int]));
                assert(mid.missing_by_blocked@.contains_key(all[i as int]));
                lemma_halves(all[i as int]);
            }
            let dep = id_at(keys[i].as_slice(), 32);
            self.remove_edge(&dep, id);
            proof {
                assert(dep@ =~= all[i as int].skip(32));
                assert(all[i as int].take(32) =~= id@);
                let seen = all.take(i as int);
                let next = all.take(i + 1);
                assert(next =~= seen.push(all[i as int]));
                assert(all[i as int] == id@ + dep@);
                assert forall|e: (Seq<u8>, Seq<u8>)| #[trigger]
                    self@.edges.contains(e) <==> mid@.edges.contains(e) && !(e.1 == id@
                        && next.contains(e.1 + e.0)) by {
                    assert(before@.edges.contains(e) <==> mid@.edges.contains(e) && !(e.1 == id@
                        && seen.contains(e.1 + e.0)));
                    if e.1 == id@ && next.contains(e.1 + e.0) && !seen.contains(e.1 + e.0) {
                        let j = choose|j: int| 0 <= j < next.len() && next[j] == e.1 + e.0;
                        if j < seen.len() {
                            assert(seen[j] == e.1 + e.0);
                        }
                        assert(id@ + e.0 == id@ + dep@);
                        assert((id@ + e.0).skip(32) =~= e.0);
                        assert((id@ + dep@).skip(32) =~= dep@);
                    }
                    if seen.contains(e.1 + e.0) {
                        let j = choose|j: int| 0 <= j < seen.len() && seen[j] == e.1 + e.0;
                        assert(next[j] == e.1 + e.0);
                    }
                    assert(next[i as int] == id@ + dep@);
                }
            }
            i = i + 1;
        }
        proof {
            let all = key_views(keys@);
            assert(all.take(i as int) =~= all);
            let want = mid@.edges.filter(|e: (Seq<u8>, Seq<u8>)| e.1 != id@);
            assert forall|e: (Seq<u8>, Seq<u8>)| #[trigger] self@.edges.contains(e) <==> want.contains(
                e,
            ) by {
                if e.1 == id@ && mid@.edges.contains(e) {
                    lemma_pair(e.0, e.1);
                    assert(mid.missing_by_blocked@.contains_key(e.1 + e.0));
                    assert((e.1 + e.0).take(32) =~= id@);
                    assert(dom.contains(e.1 + e.0));
                    assert(all.contains(e.1 + e.0));
                }
            }
            assert(self@.edges =~= want);
            assert(self@ =~= start@.purged(id@));
        }
        true
    }

    /// The labels of an event, in byte order.
    pub fn event_labels(&self, id: &EventId) -> (r: Vec<Vec<u8>>)
        requires
            self.wf(),
        ensures
            key_views(r@) == listing(self@.labels_of(id@)),
            is_listing(key_views(r@), self@.labels_of(id@)),
    {
        let limit: usize = usize::MAX;
        let keys = self.labels.keys_with_prefix(id.as_slice(), limit);
        let ghost dom = with_prefix(self.labels@.dom(), id@);
        let ghost all = listing(dom);
        let mut out: Vec<Vec<u8>> = Vec::new();
        let mut i: usize = 0;
        proof {
            assert(key_views(keys@).len() == keys@.len());
            assert(all == key_views(keys@));
            assert(key_views(out@) =~= tails(all.take(0), 32));
        }
        while i < keys.len()
            invariant
                self.wf(),
                i <= keys@.len(),
                dom == with_prefix(self.labels@.dom(), id@),
                is_listing(all, dom),
                all == key_views(keys@),
                key_views(out@) == tails(all.take(i as int), 32),
            decreases keys.len() - i,
        {
            proof {
                assert(all[i as int] == keys@[i as int]@);
                assert(all.contains(all[i as int]));
                assert(dom.contains(all[i as int]));
            }
            let label = copy_from(keys[i].as_slice(), 32);
            let ghost prev = out@;
            out.push(label);
            proof {
                assert(key_views(out@) =~= key_views(prev).push(label@));
                assert(all.take(i + 1) =~= all.take(i as int).push(all[i as int]));
                assert(tails(all.take(i + 1), 32) =~= tails(all.take(i as int), 32).push(label@));
            }
            i = i + 1;
        }
        proof {
            assert(all.take(i as int) =~= all);
            let rest = self@.labels_of(id@);
            assert forall|k: Seq<u8>| #[trigger] dom.contains(k) implies k.len() >= 32 && k.take(32)
                == id@ && rest.contains(k.skip(32)) by {
                assert(k =~= k.take(32) + k.skip(32));
            }
            assert forall|t: Seq<u8>| #[trigger] rest.contains(t) implies dom.contains(id@ + t) by {
                assert((id@ + t).take(32) =~= id@);
            }
            lemma_tails_listing(all, dom, id@, rest);
            lemma_listing_is(key_views(out@), rest);
        }
        out
    }

    /// Attach labels to event ids.
    pub fn insert_labels(&mut self, labels: &Vec<EventLabel>)
        requires
            old(self).wf(),
        ensures
            final(self).wf(),
            final(self)@ == old(self)@.with_labels(label_views(labels@)),
    {
        let mut i: usize = 0;
        proof {
            assert(old(self)@ =~= old(self)@.with_labels(label_views(labels@).take(0)));
        }
        while i < labels.len()
            invariant
                self.wf(),
                i <= labels@.len(),
                self@ == old(self)@.with_labels(label_views(labels@).take(i as int)),
            decreases labels.len() - i,
        {
            let ghost before = *self;
            let mut key = id_bytes(&labels[i].event_id);
            extend_bytes(&mut key, labels[i].label.as_slice());
            let ghost id = labels@[i as int].event_id@;
            let ghost label = labels@[i as int].label@;
            let _ = self.labels.insert(key, Mark);
            proof {
                let seen = label_views(labels@).take(i as int);
                let next = label_views(labels@).take(i + 1);
                assert(next =~= seen.push((id, label)));
                assert forall|e: (Seq<u8>, Seq<u8>)| #[trigger] self@.labels.contains(e) <==> before@.labels.insert(
                    (id, label),
                ).contains(e) by {
                    if e.0.len() == 32 && e.0 + e.1 == id + label {
                        assert((e.0 + e.1).take(32) =~= e.0);
                        assert((id + label).take(32) =~= id);
                        assert((e.0 + e.1).skip(32) =~= e.1);
                        assert((id + label).skip(32) =~= label);
                    }
                }
                assert forall|e: (Seq<u8>, Seq<u8>)| #[trigger] next.contains(e) <==> seen.contains(e)
                    || e == (id, label) by {
                    if next.contains(e) {
                        let j = choose|j: int| 0 <= j < next.len() && next[j] == e;
                        if j < seen.len() {
                            assert(seen[j] == e);
                        }
                    }
                    if seen.contains(e) {
                        let j = choose|j: int| 0 <= j < seen.len() && seen[j] == e;
                        assert(next[j] == e);
                    }
                    assert(next[i as int] == (id, label));
                }
                assert(self@.labels =~= old(self)@.with_labels(next).labels);
                assert(self@.edges =~= before@.edges);
                assert(self@ =~= old(self)@.with_labels(next));
            }
            i = i + 1;
        }
        proof {
            assert(label_views(labels@).take(i as int) =~= label_views(labels@));
        }
    }

    /// The shared events with a timestamp in `[start, end]`, in the order of timestamps
    /// and then ids.
    pub fn event_index_entries_in_timestamp_range(&self, start: u64, end: u64) -> (r: Vec<
        EventIndexEntry,
    >)
        requires
            self.wf(),
        ensures
            entries_in_range(self@.events, start, end, r@),
    {
        let empty: Vec<u8> = Vec::new();
        let limit: usize = usize::MAX;
        let keys = self.stamps.keys_with_prefix(empty.as_slice(), limit);
        let ghost dom = with_prefix(self.stamps@.dom(), empty@);
        let ghost all = listing(dom);
        let ghost keep = |k: Seq<u8>|
            start <= self@.events[k.skip(8)].timestamp <= end;
        proof {
            assert(key_views(keys@).len() == keys@.len());
            assert(all == key_views(keys@));
            assert(dom =~= shared_keys(self.events@)) by {
                assert forall|k: Seq<u8>| shared_keys(self.events@).contains(k) implies has_prefix(
                    k,
                    empty@,
                ) by {
                    assert(k.take(0) =~= empty@);
                }
            }
        }
        let mut out: Vec<EventIndexEntry> = Vec::new();
        let mut i: usize = 0;
        proof {
            reveal(Seq::filter);
            assert(all.take(0).filter(keep) =~= Seq::<Seq<u8>>::empty());
        }
        while i < keys.len()
            invariant
                self.wf(),
                i <= keys@.len(),
                dom == shared_keys(self.events@),
                is_listing(all, dom),
                all == key_views(keys@),
                keep == (|k: Seq<u8>| start <= self@.events[k.skip(8)].timestamp <= end),
                entries_at(self@.events, all.take(i as int).filter(keep), out@),
            decreases keys.len() - i,
        {
            proof {
                assert(all[i as int] == keys@[i as int]@);
                assert(all.contains(all[i as int]));
                assert(dom.contains(all[i as int]));
                lemma_filter_push(all, keep, i as int);
            }
            let id = id_at(keys[i].as_slice(), 8);
            proof {
                assert(id@ =~= all[i as int].skip(8));
            }
            let row = self.events.get(id.as_slice()).unwrap();
            if start <= row.timestamp && row.timestamp <= end {
                out.push(
                    EventIndexEntry {
                        event_id: id,
                        timestamp: row.timestamp,
                        workspace_id: row.workspace_id,
                    },
                );
            }
            i = i + 1;
        }
        proof {
            assert(all.take(i as int) =~= all);
        }
        out
    }

    /// The greatest timestamp of a shared event.
    pub fn max_timestamp(&self) -> (r: Option<u64>)
        requires
            self.wf(),
        ensures
            r.is_none() ==> forall|id: Seq<u8>|
                self@.events.contains_key(id) ==> !((#[trigger] self@.events[id]).scope is Shared),
            r matches Some(t) ==> exists|id: Seq<u8>|
                self@.events.contains_key(id) && (#[trigger] self@.events[id]).scope is Shared
                    && self@.events[id].timestamp == t,
            r matches Some(t) ==> forall|id: Seq<u8>|
                self@.events.contains_key(id) && (#[trigger] self@.events[id]).scope is Shared
                    ==> self@.events[id].timestamp <= t,
    {
        let entries = self.event_index_entries_in_timestamp_range(0, u64::MAX);
        let ghost all = listing(shared_keys(self@.events));
        let ghost keep = |k: Seq<u8>| 0 <= self@.events[k.skip(8)].timestamp <= u64::MAX;
        proof {
            lemma_filter_all(all, keep);
            assert forall|id: Seq<u8>|
                self@.events.contains_key(id) && (#[trigger] self@.events[id]).scope is Shared implies exists|j: int|
                0 <= j < entries@.len() && (#[trigger] entries@[j]).event_id@ == id by {
                let k = time_key(self@.events[id].timestamp, id);
                lemma_time_key(self@.events[id].timestamp, id);
                assert(shared_keys(self@.events).contains(k));
                assert(all.contains(k));
                let j = choose|j: int| 0 <= j < all.len() && all[j] == k;
                assert(entry_at(self@.events, all[j], entries@[j]));
            }
        }
        if entries.len() == 0 {
            return None;
        }
        let mut best: u64 = entries[0].timestamp;
        let mut i: usize = 0;
        proof {
            assert(entry_at(self@.events, all[0], entries@[0]));
            assert(all.contains(all[0]));
            assert(shared_keys(self@.events).contains(all[0]));
            assert(self@.events[all[0].skip(8)].timestamp == best);
        }
        while i < entries.len()
            invariant
                self.wf(),
                i <= entries@.len(),
                is_listing(all, shared_keys(self@.events)),
                entries_at(self@.events, all, entries@),
                forall|j: int| 0 <= j < i ==> (#[trigger] entries@[j]).timestamp <= best,
                exists|id: Seq<u8>|
                    self@.events.contains_key(id) && (#[trigger] self@.events[id]).scope is Shared
                        && self@.events[id].timestamp == best,
            decreases entries.len() - i,
        {
            if entries[i].timestamp > best {
                best = entries[i].timestamp;
                proof {
                    assert(entry_at(self@.events, all[i as int], entries@[i as int]));
                    assert(all.contains(all[i as int]));
                    assert(shared_keys(self@.events).contains(all[i as int]));
                    assert(self@.events[all[i as int].skip(8)].timestamp == best);
                }
            }
            i = i + 1;
        }
        proof {
            assert forall|id: Seq<u8>|
                self@.events.contains_key(id) && (#[trigger] self@.events[id]).scope is Shared implies self@.events[id].timestamp
                <= best by {
                let j = choose|j: int|
                    0 <= j < entries@.len() && (#[trigger] entries@[j]).event_id@ == id;
                assert(entry_at(self@.events, all[j], entries@[j]));
            }
        }
        Some(best)
    }

    /// The first shared events, in the order of timestamps and then ids.
    pub fn shared_event_ids(&self, limit: usize) -> (r: Vec<EventId>)
        requires
            self.wf(),
        ensures
            id_views(r@) == at_most(shared_ids(self@.events), limit),
    {
        let empty: Vec<u8> = Vec::new();
        let keys = self.stamps.keys_with_prefix(empty.as_slice(), limit);
        let ghost dom = with_prefix(self.stamps@.dom(), empty@);
        let ghost all = listing(dom);
        let ghost name = |k: Seq<u8>| k.skip(8);
        let mut out: Vec<EventId> = Vec::new();
        let mut i: usize = 0;
        proof {
            assert(dom =~= shared_keys(self@.events)) by {
                assert forall|k: Seq<u8>| shared_keys(self@.events).contains(k) implies has_prefix(
                    k,
                    empty@,
                ) by {
                    assert(k.take(0) =~= empty@);
                }
            }
            assert(id_views(out@) =~= key_views(keys@).take(0).map_values(name));
        }
        while i < keys.len()
            invariant
                i <= keys@.len(),
                all == listing(dom),
                is_listing(all, dom),
                dom == shared_keys(self@.events),
                key_views(keys@) == at_most(all, limit),
                name == (|k: Seq<u8>| k.skip(8)),
                id_views(out@) == key_views(keys@).take(i as int).map_values(name),
            decreases keys.len() - i,
        {
            proof {
                assert(key_views(keys@).len() == keys@.len());
                assert(key_views(keys@)[i as int] == keys@[i as int]@);
                assert(all.contains(all[i as int]));
                assert(dom.contains(all[i as int]));
            }
            let id = id_at(keys[i].as_slice(), 8);
            let ghost before = out@;
            out.push(id);
            proof {
                assert(id@ =~= keys@[i as int]@.skip(8));
                assert(id_views(out@) =~= id_views(before).push(id@));
                let (a, b) = (key_views(keys@).take(i as int), key_views(keys@).take(i + 1));
                assert(b =~= a.push(keys@[i as int]@));
                assert(b.map_values(name) =~= a.map_values(name).push(id@));
            }
            i = i + 1;
        }
        proof {
            assert(key_views(keys@).take(i as int) =~= key_views(keys@));
            assert(key_views(keys@).map_values(name) =~= at_most(
                all.map_values(name),
                limit,
            ));
        }
        out
    }

    /// The keys of the first edges, in their order.
    pub fn blocked_edge_keys(&self, limit: usize) -> (r: Vec<Vec<u8>>)
        requires
            self.wf(),
        ensures
            key_views(r@) == at_most(listing(edge_keys(self@.edges)), limit),
            forall|i: int| 0 <= i < r@.len() ==> (#[trigger] r@[i])@.len() == 64,
    {
        let empty: Vec<u8> = Vec::new();
        let keys = self.blocked_by_missing.keys_with_prefix(empty.as_slice(), limit);
        proof {
            let dom = with_prefix(self.blocked_by_missing@.dom(), empty@);
            assert forall|k: Seq<u8>| #[trigger] dom.contains(k) <==> edge_keys(
                self@.edges,
            ).contains(k) by {
                assert(k.take(0) =~= empty@);
                if k.len() == 64 {
                    lemma_halves(k);
                }
            }
            assert(dom =~= edge_keys(self@.edges));
            assert forall|i: int| 0 <= i < keys@.len() implies (#[trigger] keys@[i])@.len() == 64 by {
                let all = listing(dom);
                assert(key_views(keys@).len() == keys@.len());
                assert(key_views(keys@)[i] == keys@[i]@);
                assert(all.contains(all[i]));
                assert(dom.contains(all[i]));
            }
        }
        keys
    }

    /// The events that wait for a dependency, in the order of their ids.
    pub fn blocked_events_by_missing_dep(&self, dep: &EventId) -> (r: Vec<EventId>)
        requires
            self.wf(),
        ensures
            id_views(r@) == listing(self@.waiting_for(dep@)),
            is_listing(id_views(r@), self@.waiting_for(dep@)),
    {
        let limit: usize = usize::MAX;
        let keys = self.blocked_by_missing.keys_with_prefix(dep.as_slice(), limit);
        let ghost dom = with_prefix(self.blocked_by_missing@.dom(), dep@);
        let ghost all = listing(dom);
        let mut out: Vec<EventId> = Vec::new();
        let mut i: usize = 0;
        proof {
            assert(key_views(keys@).len() == keys@.len());
            assert(all == key_views(keys@));
            assert(id_views(out@) =~= tails(all.take(0), 32));
        }
        while i < keys.len()
            invariant
                self.wf(),
                i <= keys@.len(),
                dom == with_prefix(self.blocked_by_missing@.dom(), dep@),
                is_listing(all, dom),
                all == key_views(keys@),
                id_views(out@) == tails(all.take(i as int), 32),
            decreases keys.len() - i,
        {
            proof {
                assert(all[i as int] == keys@[i as int]@);
                assert(all.contains(all[i as int]));
                assert(dom.contains(all[i as int]));
                assert(self.blocked_by_missing@.contains_key(all[i as int]));
            }
            let id = id_at(keys[i].as_slice(), 32);
            let ghost prev = out@;
            out.push(id);
            proof {
                assert(id@ =~= all[i as int].skip(32));
                assert(id_views(out@) =~= id_views(prev).push(id@));
                assert(all.take(i + 1) =~= all.take(i as int).push(all[i as int]));
                assert(tails(all.take(i + 1), 32) =~= tails(all.take(i as int), 32).push(id@));
            }
            i = i + 1;
        }
        proof {
            assert(all.take(i as int) =~= all);
            assert forall|k: Seq<u8>| #[trigger] dom.contains(k) <==> k.len() == 64 && k.take(32)
                == dep@ && self@.waiting_for(dep@).contains(k.skip(32)) by {
                if dom.contains(k) {
                    assert(self.blocked_by_missing@.contains_key(k));
                    lemma_halves(k);
                } else if k.len() == 64 && k.take(32) == dep@ && self@.waiting_for(dep@).contains(
                    k.skip(32),
                ) {
                    lemma_halves(k);
                    assert(k.take(32).len() == 32);
                    assert(self.blocked_by_missing@.contains_key(k));
                }
            }
            assert forall|b: Seq<u8>| #[trigger] self@.waiting_for(dep@).contains(b) implies dom.contains(
                dep@ + b,
            ) by {
                lemma_pair(dep@, b);
                assert((dep@ + b).take(32) == dep@);
            }
            lemma_tails_listing(all, dom, dep@, self@.waiting_for(dep@));
            lemma_listing_is(id_views(out@), self@.waiting_for(dep@));
        }
        out
    }

    /// Forget every edge to a dependency.
    pub fn delete_blocked_events_by_missing_dep(&mut self, dep: &EventId)
        requires
            old(self).wf(),
        ensures
            final(self).wf(),
            final(self)@ == (EventState {
                edges: old(self)@.edges.filter(|e: (Seq<u8>, Seq<u8>)| e.0 != dep@),
                ..old(self)@
            }),
    {
        let blocked = self.blocked_events_by_missing_dep(dep);
        let ghost waiting = self@.waiting_for(dep@);
        let mut i: usize = 0;
        while i < blocked.len()
            invariant
                self.wf(),
                i <= blocked@.len(),
                is_listing(id_views(blocked@), waiting),
                waiting == old(self)@.waiting_for(dep@),
                self@.events == old(self)@.events,
                self@.labels == old(self)@.labels,
                forall|e: (Seq<u8>, Seq<u8>)| #[trigger]
                    self@.edges.contains(e) <==> old(self)@.edges.contains(e) && !(e.0 == dep@
                        && id_views(blocked@).take(i as int).contains(e.1)),
            decreases blocked.len() - i,
        {
            let ghost before = *self;
            let id = blocked[i];
            self.remove_edge(dep, &id);
            proof {
                let seen = id_views(blocked@).take(i as int);
                let next = id_views(blocked@).take(i + 1);
                assert(id_views(blocked@)[i as int] == id@);
                assert(next =~= seen.push(id@));
                assert forall|e: (Seq<u8>, Seq<u8>)| #[trigger]
                    self@.edges.contains(e) <==> old(self)@.edges.contains(e) && !(e.0 == dep@
                        && next.contains(e.1)) by {
                    assert(before@.edges.contains(e) <==> old(self)@.edges.contains(e) && !(e.0
                        == dep@ && seen.contains(e.1)));
                    if next.contains(e.1) && !seen.contains(e.1) {
                        let j = choose|j: int| 0 <= j < next.len() && next[j] == e.1;
                        if j < seen.len() {
                            assert(seen[j] == e.1);
                        }
                    }
                    if seen.contains(e.1) {
                        let j = choose|j: int| 0 <= j < seen.len() && seen[j] == e.1;
                        assert(next[j] == e.1);
                    }
                    assert(next[i as int] == id@);
                }
            }
            i = i + 1;
        }
        proof {
            let all = id_views(blocked@);
            assert(all.take(i as int) =~= all);
            let want = old(self)@.edges.filter(|e: (Seq<u8>, Seq<u8>)| e.0 != dep@);
            assert forall|e: (Seq<u8>, Seq<u8>)| #[trigger] self@.edges.contains(e) <==> want.contains(
                e,
            ) by {
                if e.0 == dep@ && old(self)@.edges.contains(e) {
                    assert((dep@, e.1) == e);
                    assert(waiting.contains(e.1));
                    assert(all.contains(e.1));
                }
            }
            assert(self@.edges =~= want);
            assert(self@ =~= (EventState { edges: want, ..old(self)@ }));
        }
    }

    fn remove_edge(&mut self, dep: &EventId, blocked: &EventId)
        requires
            old(self).wf(),
        ensures
            final(self).wf(),
            final(self)@ == (EventState {
                edges: old(self)@.edges.remove((dep@, blocked@)),
                ..old(self)@
            }),
    {
        let ghost before = *self;
        let _ = self.blocked_by_missing.remove(id_pair(dep, blocked).as_slice());
        let _ = self.missing_by_blocked.remove(id_pair(blocked, dep).as_slice());
        proof {
            lemma_pair(dep@, blocked@);
            lemma_pair(blocked@, dep@);
            assert forall|e: (Seq<u8>, Seq<u8>)| #[trigger] self@.edges.contains(e) <==> before@.edges.remove(
                (dep@, blocked@),
            ).contains(e) by {
                if e.0.len() == 32 && e.1.len() == 32 {
                    lemma_pair(e.0, e.1);
                }
            }
            assert forall|k: Seq<u8>| #[trigger]
                self.blocked_by_missing@.contains_key(k) implies k.len() == 64
                && self.missing_by_blocked@.contains_key(swap_halves(k)) by {
                assert(before.blocked_by_missing@.contains_key(k));
                lemma_halves(k);
                if swap_halves(k) == blocked@ + dep@ {
                    assert(k == swap_halves(blocked@ + dep@));
                }
            }
            assert forall|k: Seq<u8>| #[trigger]
                self.missing_by_blocked@.contains_key(k) implies k.len() == 64
                && self.blocked_by_missing@.contains_key(swap_halves(k)) by {
                assert(before.missing_by_blocked@.contains_key(k));
                lemma_halves(k);
                if swap_halves(k) == dep@ + blocked@ {
                    assert(k == swap_halves(dep@ + blocked@));
                }
            }
            assert(self@.edges =~= before@.edges.remove((dep@, blocked@)));
            assert(self@ =~= (EventState { edges: self@.edges, ..before@ }));
        }
    }
}

/// The entries that the time keys `keys` stand for, one for one.
pub open spec fn entries_at(
    events: Map<Seq<u8>, EventRow>,
    keys: Seq<Seq<u8>>,
    entries: Seq<EventIndexEntry>,
) -> bool {
    &&& entries.len() == keys.len()
    &&& forall|i: int| 0 <= i < keys.len() ==> entry_at(events, keys[i], #[trigger] entries[i])
}

/// `entries` are the shared events with a timestamp in `[start, end]`, in the order of
/// timestamps and then ids.
pub open spec fn entries_in_range(
    events: Map<Seq<u8>, EventRow>,
    start: u64,
    end: u64,
    entries: Seq<EventIndexEntry>,
) -> bool {
    &&& is_listing(listing(shared_keys(events)), shared_keys(events))
    &&& entries_at(
        events,
        listing(shared_keys(events)).filter(
            |k: Seq<u8>| start <= events[k.skip(8)].timestamp <= end,
        ),
        entries,
    )
}

/// Labels as pairs of event id and label.
pub open spec fn label_views(labels: Seq<EventLabel>) -> Seq<(Seq<u8>, Seq<u8>)> {
    labels.map_values(|l: EventLabel| (l.event_id@, l.label@))
}

/// What follows the first `n` bytes.
fn copy_from(s: &[u8], n: usize) -> (r: Vec<u8>)
    requires
        n <= s@.len(),
    ensures
        r@ == s@.skip(n as int),
{
    let mut out: Vec<u8> = Vec::new();
    let mut i: usize = n;
    while i < s.len()
        invariant
            n <= i <= s@.len(),
            out@ == s@.subrange(n as int, i as int),
        decreases s.len() - i,
    {
        out.push(s[i]);
        assert(s@.subrange(n as int, i + 1) =~= s@.subrange(n as int, i as int).push(s@[i as int]));
        i = i + 1;
    }
    assert(out@ =~= s@.skip(n as int));
    out
}

proof fn lemma_filter_push(s: Seq<Seq<u8>>, keep: spec_fn(Seq<u8>) -> bool, i: int)
    requires
        0 <= i < s.len(),
    ensures
        s.take(i + 1).filter(keep) == (if keep(s[i]) {
            s.take(i).filter(keep).push(s[i])
        } else {
            s.take(i).filter(keep)
        }),
{
    reveal(Seq::filter);
    assert(s.take(i + 1).drop_last() =~= s.take(i));
}

proof fn lemma_filter_all(s: Seq<Seq<u8>>, keep: spec_fn(Seq<u8>) -> bool)
    requires
        forall|i: int| 0 <= i < s.len() ==> keep(#[trigger] s[i]),
    ensures
        s.filter(keep) == s,
    decreases s.len(),
{
    reveal(Seq::filter);
    if s.len() > 0 {
        let t = s.drop_last();
        assert forall|i: int| 0 <= i < t.len() implies keep(#[trigger] t[i]) by {
            assert(t[i] == s[i]);
        }
        lemma_filter_all(t, keep);
        assert(keep(s[s.len() - 1]));
        assert(s =~= t.push(s.last()));
    }
}

/// The views of a sequence of ids.
pub open spec fn id_views(ids: Seq<EventId>) -> Seq<Seq<u8>> {
    ids.map_values(|id: EventId| id@)
}

/// What is left of each key behind its first `n` bytes.
spec fn tails(keys: Seq<Seq<u8>>, n: int) -> Seq<Seq<u8>> {
    keys.map_values(|k: Seq<u8>| k.skip(n))
}

proof fn lemma_lex_same_head(a: Seq<u8>, b: Seq<u8>, n: int)
    requires
        0 <= n <= a.len(),
        n <= b.len(),
        a.take(n) == b.take(n),
    ensures
        lex_lt(a, b) == lex_lt(a.skip(n), b.skip(n)),
    decreases n,
{
    if n == 0 {
        assert(a.skip(0) =~= a);
        assert(b.skip(0) =~= b);
    } else {
        assert(a[0] == a.take(n)[0] && b[0] == b.take(n)[0]);
        assert(a.skip(1).take(n - 1) =~= a.take(n).skip(1));
        assert(b.skip(1).take(n - 1) =~= b.take(n).skip(1));
        lemma_lex_same_head(a.skip(1), b.skip(1), n - 1);
        assert(a.skip(1).skip(n - 1) =~= a.skip(n));
        assert(b.skip(1).skip(n - 1) =~= b.skip(n));
    }
}

/// The tails behind one head come in the order of the keys.
proof fn lemma_tails_listing(
    all: Seq<Seq<u8>>,
    dom: Set<Seq<u8>>,
    head: Seq<u8>,
    rest: Set<Seq<u8>>,
)
    requires
        is_listing(all, dom),
        head.len() == 32,
        forall|k: Seq<u8>| #[trigger] dom.contains(k) ==> k.len() >= 32 && k.take(32) == head
            && rest.contains(k.skip(32)),
        forall|t: Seq<u8>| #[trigger] rest.contains(t) ==> dom.contains(head + t),
    ensures
        is_listing(tails(all, 32), rest),
{
    let ts = tails(all, 32);
    assert forall|i: int, j: int| 0 <= i < j < ts.len() implies lex_lt(
        #[trigger] ts[i],
        #[trigger] ts[j],
    ) by {
        assert(all.contains(all[i]) && all.contains(all[j]));
        assert(dom.contains(all[i]) && dom.contains(all[j]));
        assert(lex_lt(all[i], all[j]));
        lemma_lex_same_head(all[i], all[j], 32);
    }
    assert forall|t: Seq<u8>| #[trigger] rest.contains(t) <==> ts.contains(t) by {
        if rest.contains(t) {
            assert(dom.contains(head + t));
            assert(all.contains(head + t));
            let i = choose|i: int| 0 <= i < all.len() && all[i] == head + t;
            assert((head + t).skip(32) =~= t);
            assert(ts[i] == t);
        }
        if ts.contains(t) {
            let i = choose|i: int| 0 <= i < ts.len() && ts[i] == t;
            assert(all.contains(all[i]));
            assert(dom.contains(all[i]));
        }
    }
}

proof fn lemma_index_insert(
    events: Map<Seq<u8>, EventRow>,
    keep: spec_fn(EventRow) -> bool,
    id: Seq<u8>,
    row: EventRow,
)
    requires
        id.len() == 32,
        !events.contains_key(id),
    ensures
        forall|k: Seq<u8>| #[trigger]
            is_time_key_of(events.insert(id, row), keep, k) <==> is_time_key_of(events, keep, k)
                || (keep(row) && k == time_key(row.timestamp, id)),
{
    lemma_time_key(row.timestamp, id);
    assert forall|k: Seq<u8>| #[trigger]
        is_time_key_of(events.insert(id, row), keep, k) <==> is_time_key_of(events, keep, k) || (
        keep(row) && k == time_key(row.timestamp, id)) by {
        if k.len() == 40 {
            lemma_time_key_split(k);
        }
    }
}

proof fn lemma_index_remove(
    events: Map<Seq<u8>, EventRow>,
    keep: spec_fn(EventRow) -> bool,
    id: Seq<u8>,
)
    requires
        id.len() == 32,
        events.contains_key(id),
    ensures
        forall|k: Seq<u8>| #[trigger]
            is_time_key_of(events.remove(id), keep, k) <==> is_time_key_of(events, keep, k) && k
                != time_key(events[id].timestamp, id),
        is_time_key_of(events, keep, time_key(events[id].timestamp, id)) == keep(events[id]),
{
    lemma_time_key(events[id].timestamp, id);
    assert forall|k: Seq<u8>| #[trigger]
        is_time_key_of(events.remove(id), keep, k) <==> is_time_key_of(events, keep, k) && k
            != time_key(events[id].timestamp, id) by {
        if k.len() == 40 {
            lemma_time_key_split(k);
        }
    }
}

} // verus!
