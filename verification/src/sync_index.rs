//! The sync index: which shared events this peer has, by id and in the order of time.
//!
//! The index lives in memory. It is filled from the event store and from the queue of applied
//! shared events, and forgets what was purged. A range of time is summarised by a count and a
//! fingerprint, the exclusive or of one digest for each event, so that two peers with the same
//! events come to the same summary whatever order they learned of them in.
use vstd::prelude::*;
use crate::bytes::{
    be64, copy_bytes, from_be64, has_prefix, id_with, lemma_be64_ordered, lemma_id_ext, lemma_id_of,
    lemma_id_with, lemma_lex_irreflexive, lemma_lex_transitive, lex_lt, zero_bytes, zero_id,
    EventId,
};
use crate::event_store::{
    entries_at, entry_at, lemma_time_key, lemma_time_key_split, make_time_key, shared_keys,
    time_key, EventRow,
};
use crate::hash::{blake3_digest, domain_hash};
use crate::schema::{
    applied_shared_of, applied_shared_views, claim_applied_shared_events, claimed_applied_shared,
    lemma_collected_at, lemma_collected_len, APPLIED_SHARED_EVENTS,
};
use crate::store::Store;
use crate::table::{
    countable, is_listing, key_views, lemma_ascending_distinct, lemma_listing_exists, listing,
    with_prefix, Table,
};
use crate::tables::{keys_of, law_first_rows_come_first, rows_listed, rows_removed, Rows, TableName};
use crate::text::prefixed;
use crate::types::{EventIndexEntry, EventScope};

verus! {

// ---------------------------------------------------------------------------
// Ranges and summaries
// ---------------------------------------------------------------------------

/// A range of timestamps, both ends counted in.
#[derive(Debug, Clone, Copy, PartialEq, Eq)]
pub struct TimestampRange {
    pub start: u64,
    pub end: u64,
}

/// How many milliseconds a day has.
pub const DAY_MS: u64 = 86_400_000;

impl TimestampRange {
    /// Whether a timestamp lies in the range.
    pub open spec fn holds(self, timestamp: u64) -> bool {
        self.start <= timestamp <= self.end
    }

    /// The range of all timestamps.
    pub fn root() -> (r: TimestampRange)
        ensures
            r == root_range(),
    {
        TimestampRange { start: 0, end: u64::MAX }
    }

    /// The day of a timestamp.
    pub fn containing_day(timestamp: u64) -> (r: TimestampRange)
        ensures
            r == day_range(timestamp),
            r.holds(timestamp),
    {
        let start: u64 = (timestamp / DAY_MS) * DAY_MS;
        TimestampRange { start, end: start.saturating_add(DAY_MS - 1) }
    }
}

/// The range of all timestamps.
pub open spec fn root_range() -> TimestampRange {
    TimestampRange { start: 0, end: u64::MAX }
}

/// The day of a timestamp.
pub open spec fn day_range(timestamp: u64) -> TimestampRange {
    let start = (timestamp as int / DAY_MS as int) * DAY_MS;
    TimestampRange {
        start: start as u64,
        end: if start + DAY_MS - 1 <= u64::MAX {
            (start + DAY_MS - 1) as u64
        } else {
            u64::MAX
        },
    }
}

/// What a range of events comes to.
#[derive(Debug, Clone, Copy, PartialEq, Eq)]
pub struct RangeSummary {
    pub count: u64,
    pub fingerprint: EventId,
}

/// The text that the digest of an event id starts with: `sync-event-id:`.
pub open spec fn fingerprint_domain() -> Seq<u8> {
    seq![115u8, 121, 110, 99, 45, 101, 118, 101, 110, 116, 45, 105, 100, 58]
}

/// What an event adds to a fingerprint.
pub open spec fn id_fingerprint(id: EventId) -> EventId {
    blake3_digest(fingerprint_domain() + id@)
}

fn fingerprint_id(id: &EventId) -> (r: EventId)
    ensures
        r == id_fingerprint(*id),
{
    let domain: Vec<u8> = vec![115, 121, 110, 99, 45, 101, 118, 101, 110, 116, 45, 105, 100, 58];
    assert(domain@ =~= fingerprint_domain());
    domain_hash(domain.as_slice(), id.as_slice())
}

/// The exclusive or of two byte strings of an id's length.
pub open spec fn xor_bytes(a: Seq<u8>, b: Seq<u8>) -> Seq<u8> {
    Seq::new(32, |i: int| a[i] ^ b[i])
}

fn xor_into(target: &mut EventId, value: &EventId)
    ensures
        final(target)@ == xor_bytes(old(target)@, value@),
{
    let ghost before = target@;
    let mut i: usize = 0;
    while i < 32
        invariant
            i <= 32,
            before == old(target)@,
            forall|j: int| 0 <= j < i ==> target@[j] == before[j] ^ value@[j],
            forall|j: int| i <= j < 32 ==> target@[j] == before[j],
        decreases 32 - i,
    {
        target[i] = target[i] ^ value[i];
        i = i + 1;
    }
    assert(target@ =~= xor_bytes(before, value@));
}

/// The fingerprint of some events.
pub open spec fn fingerprint(entries: Seq<EventIndexEntry>) -> Seq<u8>
    decreases entries.len(),
{
    if entries.len() == 0 {
        zero_bytes()
    } else {
        xor_bytes(fingerprint(entries.drop_last()), id_fingerprint(entries.last().event_id)@)
    }
}

/// The summary of some events.
pub open spec fn summary_of(entries: Seq<EventIndexEntry>) -> RangeSummary {
    RangeSummary { count: entries.len() as u64, fingerprint: id_with(fingerprint(entries)) }
}

proof fn lemma_fingerprint_len(entries: Seq<EventIndexEntry>)
    ensures
        fingerprint(entries).len() == 32,
{
}

/// Summarise some events.
pub fn summarize_entries(entries: &Vec<EventIndexEntry>) -> (r: RangeSummary)
    ensures
        r == summary_of(entries@),
{
    let mut summary = RangeSummary { count: 0, fingerprint: zero_id() };
    let mut i: usize = 0;
    assert(entries@.take(0) =~= Seq::<EventIndexEntry>::empty());
    while i < entries.len()
        invariant
            i <= entries@.len(),
            entries@.len() == entries.len(),
            summary.count == i,
            summary.fingerprint@ == fingerprint(entries@.take(i as int)),
        decreases entries.len() - i,
    {
        summary.count = summary.count + 1;
        let part = fingerprint_id(&entries[i].event_id);
        xor_into(&mut summary.fingerprint, &part);
        proof {
            assert(entries@.take(i + 1).drop_last() =~= entries@.take(i as int));
        }
        i = i + 1;
    }
    proof {
        assert(entries@.take(i as int) =~= entries@);
        lemma_fingerprint_len(entries@);
        lemma_id_of(fingerprint(entries@), summary.fingerprint);
    }
    summary
}

// ---------------------------------------------------------------------------
// The index
// ---------------------------------------------------------------------------

/// What the index holds: the events by id, and the dependencies that were looked up so far.
#[verifier::ext_equal]
pub struct IndexState {
    pub entries: Map<Seq<u8>, EventIndexEntry>,
    pub deps: Map<Seq<u8>, Seq<EventId>>,
}

/// `k` is the time key of an event.
pub open spec fn is_index_key(entries: Map<Seq<u8>, EventIndexEntry>, k: Seq<u8>) -> bool {
    &&& k.len() == 40
    &&& entries.contains_key(k.skip(8))
    &&& k.take(8) == be64(entries[k.skip(8)].timestamp)
}

/// The time keys of the events.
pub open spec fn index_keys(entries: Map<Seq<u8>, EventIndexEntry>) -> Set<Seq<u8>> {
    Set::new(|k: Seq<u8>| is_index_key(entries, k))
}

/// The events in the order of timestamps and then ids.
pub open spec fn in_time_order(entries: Map<Seq<u8>, EventIndexEntry>) -> Seq<EventIndexEntry> {
    listing(index_keys(entries)).map_values(|k: Seq<u8>| entries[k.skip(8)])
}

/// The events of a range, in the order of timestamps and then ids.
pub open spec fn entries_in(
    entries: Map<Seq<u8>, EventIndexEntry>,
    range: TimestampRange,
) -> Seq<EventIndexEntry> {
    in_time_order(entries).filter(|e: EventIndexEntry| range.holds(e.timestamp))
}

/// The events with one more, unless it is there already.
pub open spec fn entry_added(entries: Map<Seq<u8>, EventIndexEntry>, e: EventIndexEntry) -> Map<
    Seq<u8>,
    EventIndexEntry,
> {
    if entries.contains_key(e.event_id@) {
        entries
    } else {
        entries.insert(e.event_id@, e)
    }
}

/// Every event is found under its own id.
pub open spec fn valid_entries(entries: Map<Seq<u8>, EventIndexEntry>) -> bool {
    forall|id: Seq<u8>| #[trigger]
        entries.contains_key(id) ==> entries[id].event_id@ == id
}

/// The sync index.
pub struct SyncIndex {
    by_id: Table<EventIndexEntry>,
    by_time: Table<EventIndexEntry>,
    deps: Table<Vec<EventId>>,
}

impl View for SyncIndex {
    type V = IndexState;

    closed spec fn view(&self) -> IndexState {
        IndexState { entries: self.by_id@, deps: self.deps@ }
    }
}

impl SyncIndex {
    /// Both orders hold the same events; dependencies are known of indexed events only.
    pub closed spec fn wf(&self) -> bool {
        &&& self.by_id.wf()
        &&& self.by_time.wf()
        &&& self.deps.wf()
        &&& valid_entries(self.by_id@)
        &&& self.by_time@.dom() == index_keys(self.by_id@)
        &&& forall|k: Seq<u8>| #[trigger]
            self.by_time@.contains_key(k) ==> self.by_time@[k] == self.by_id@[k.skip(8)]
        &&& forall|id: Seq<u8>| #[trigger]
            self.deps@.contains_key(id) ==> self.by_id@.contains_key(id)
    }

    /// What holds of every index.
    pub proof fn lemma_valid(&self)
        requires
            self.wf(),
        ensures
            valid_entries(self@.entries),
            self@.entries.dom().finite(),
            is_listing(listing(index_keys(self@.entries)), index_keys(self@.entries)),
            forall|id: Seq<u8>| #[trigger]
                self@.deps.contains_key(id) ==> self@.entries.contains_key(id),
    {
        crate::table::lemma_table_finite(&self.by_id);
        crate::table::lemma_table_listing(&self.by_time, Seq::empty());
        lemma_no_prefix(self.by_time@.dom());
    }

    /// An index without events.
    pub fn new() -> (index: SyncIndex)
        ensures
            index.wf(),
            index@ == (IndexState { entries: Map::empty(), deps: Map::empty() }),
    {
        let index = SyncIndex { by_id: Table::new(), by_time: Table::new(), deps: Table::new() };
        proof {
            assert(index.by_time@.dom() =~= index_keys(index.by_id@));
        }
        index
    }

    /// Add an event unless it is there already; tells whether it was added.
    pub fn insert_entry(&mut self, entry: EventIndexEntry) -> (added: bool)
        requires
            old(self).wf(),
        ensures
            final(self).wf(),
            added == !old(self)@.entries.contains_key(entry.event_id@),
            final(self)@ == (IndexState {
                entries: entry_added(old(self)@.entries, entry),
                ..old(self)@
            }),
    {
        if self.by_id.contains(entry.event_id.as_slice()) {
            return false;
        }
        let ghost before = self.by_id@;
        let key = make_time_key(entry.timestamp, &entry.event_id);
        self.by_time.put(key, entry);
        let _ = self.by_id.insert(crate::bytes::id_bytes(&entry.event_id), entry);
        proof {
            lemma_keys_insert(before, entry);
            lemma_time_key(entry.timestamp, entry.event_id@);
            assert(self.by_time@.dom() =~= index_keys(self.by_id@));
        }
        true
    }

    /// Forget an event; tells whether it was there.
    pub fn remove_event(&mut self, event_id: &EventId) -> (removed: bool)
        requires
            old(self).wf(),
        ensures
            final(self).wf(),
            removed == old(self)@.entries.contains_key(event_id@),
            final(self)@ == (IndexState {
                entries: old(self)@.entries.remove(event_id@),
                deps: old(self)@.deps.remove(event_id@),
            }),
    {
        let ghost before = self.by_id@;
        let _ = self.deps.remove(event_id.as_slice());
        match self.by_id.remove(event_id.as_slice()) {
            Some(entry) => {
                let key = make_time_key(entry.timestamp, event_id);
                let _ = self.by_time.remove(key.as_slice());
                proof {
                    lemma_time_key(entry.timestamp, event_id@);
                    lemma_keys_remove(before, event_id@);
                    assert(self.by_time@.dom() =~= index_keys(self.by_id@));
                }
                true
            },
            None => {
                assert(self.by_id@ =~= before);
                false
            },
        }
    }

    /// Whether an event is there.
    pub fn has_event(&self, event_id: &EventId) -> (r: bool)
        requires
            self.wf(),
        ensures
            r == self@.entries.contains_key(event_id@),
    {
        self.by_id.contains(event_id.as_slice())
    }

    /// Whether an event is there.
    pub fn contains_event(&self, event_id: &EventId) -> (r: bool)
        requires
            self.wf(),
        ensures
            r == self@.entries.contains_key(event_id@),
    {
        self.has_event(event_id)
    }

    /// How many events are there.
    pub fn indexed_event_count(&self) -> (n: usize)
        requires
            self.wf(),
        ensures
            self@.entries.dom().finite(),
            n == self@.entries.dom().len(),
    {
        self.by_id.len()
    }

    /// The events of a range, in the order of timestamps and then ids.
    pub fn ids_in_range(&self, range: TimestampRange) -> (r: Vec<EventIndexEntry>)
        requires
            self.wf(),
        ensures
            r@ == entries_in(self@.entries, range),
    {
        let empty: Vec<u8> = Vec::new();
        let keys = self.by_time.keys_with_prefix(empty.as_slice(), usize::MAX);
        let ghost dom = index_keys(self.by_id@);
        let ghost all = key_views(keys@);
        let ghost keep = |e: EventIndexEntry| range.holds(e.timestamp);
        let ghost ordered = in_time_order(self.by_id@);
        proof {
            lemma_no_prefix(dom);
            assert(empty@ =~= Seq::<u8>::empty());
            assert(all.len() == keys@.len());
            assert(all == listing(dom));
            reveal(Seq::filter);
            assert(ordered.take(0).filter(keep) =~= Seq::<EventIndexEntry>::empty());
        }
        let mut out: Vec<EventIndexEntry> = Vec::new();
        let mut i: usize = 0;
        while i < keys.len()
            invariant
                self.wf(),
                i <= keys@.len(),
                dom == index_keys(self.by_id@),
                all == key_views(keys@),
                all == listing(dom),
                is_listing(all, dom),
                ordered == in_time_order(self.by_id@),
                keep == (|e: EventIndexEntry| range.holds(e.timestamp)),
                out@ == ordered.take(i as int).filter(keep),
            decreases keys.len() - i,
        {
            proof {
                assert(all[i as int] == keys@[i as int]@);
                assert(all.contains(all[i as int]));
                assert(dom.contains(all[i as int]));
                lemma_filter_next(ordered, keep, i as int);
            }
            let entry = *self.by_time.get(keys[i].as_slice()).unwrap();
            assert(entry == ordered[i as int]);
            if range.start <= entry.timestamp && entry.timestamp <= range.end {
                out.push(entry);
            }
            i = i + 1;
        }
        proof {
            assert(ordered.len() == all.len());
            assert(ordered.take(i as int) =~= ordered);
        }
        out
    }

    /// The summary of all events.
    pub fn root_summary(&self) -> (r: RangeSummary)
        requires
            self.wf(),
        ensures
            r == root_summary_of(self@.entries),
    {
        let entries = self.ids_in_range(TimestampRange::root());
        proof {
            lemma_root_holds_all(in_time_order(self@.entries));
        }
        summarize_entries(&entries)
    }

    /// The dependencies of an event that were looked up before.
    pub(crate) fn cached_deps(&self, event_id: &EventId) -> (r: Option<Vec<EventId>>)
        requires
            self.wf(),
        ensures
            r is Some == self@.deps.contains_key(event_id@),
            r matches Some(d) ==> d@ == self@.deps[event_id@],
    {
        match self.deps.get(event_id.as_slice()) {
            Some(d) => Some(crate::types::copy_ids(d)),
            None => None,
        }
    }

    /// Keep the dependencies of an indexed event.
    pub(crate) fn keep_deps(&mut self, event_id: &EventId, deps: Vec<EventId>)
        requires
            old(self).wf(),
            old(self)@.entries.contains_key(event_id@),
        ensures
            final(self).wf(),
            final(self)@ == (IndexState {
                deps: old(self)@.deps.insert(event_id@, deps@),
                ..old(self)@
            }),
    {
        self.deps.put(crate::bytes::id_bytes(event_id), deps);
    }
}

/// The summary of all events.
pub open spec fn root_summary_of(entries: Map<Seq<u8>, EventIndexEntry>) -> RangeSummary {
    summary_of(in_time_order(entries))
}

/// The range of all timestamps leaves nothing out.
pub proof fn lemma_root_holds_all(s: Seq<EventIndexEntry>)
    ensures
        s.filter(|e: EventIndexEntry| root_range().holds(e.timestamp)) == s,
    decreases s.len(),
{
    let keep = |e: EventIndexEntry| root_range().holds(e.timestamp);
    reveal(Seq::filter);
    if s.len() > 0 {
        lemma_root_holds_all(s.drop_last());
        assert(s =~= s.drop_last().push(s.last()));
    }
}

/// One more element of a filtered sequence.
pub proof fn lemma_filter_next<T>(s: Seq<T>, keep: spec_fn(T) -> bool, i: int)
    requires
        0 <= i < s.len(),
    ensures
        s.take(i + 1).filter(keep) == (if keep(s[i]) {
            s.take(i).filter(keep).push(s[i])
        } else {
            s.take(i).filter(keep)
        }),
{
    reveal(Seq::filter);
    assert(s.take(i + 1).drop_last() =~= s.take(i));
}

proof fn lemma_no_prefix(keys: Set<Seq<u8>>)
    ensures
        with_prefix(keys, Seq::empty()) == keys,
{
    assert forall|k: Seq<u8>| keys.contains(k) implies has_prefix(k, Seq::empty()) by {
        assert(k.take(0) =~= Seq::<u8>::empty());
    }
    assert(with_prefix(keys, Seq::empty()) =~= keys);
}

proof fn lemma_keys_insert(entries: Map<Seq<u8>, EventIndexEntry>, e: EventIndexEntry)
    requires
        !entries.contains_key(e.event_id@),
    ensures
        index_keys(entries.insert(e.event_id@, e)) == index_keys(entries).insert(
            time_key(e.timestamp, e.event_id@),
        ),
        !index_keys(entries).contains(time_key(e.timestamp, e.event_id@)),
{
    let after = entries.insert(e.event_id@, e);
    lemma_time_key(e.timestamp, e.event_id@);
    assert forall|k: Seq<u8>| #[trigger] index_keys(after).contains(k) <==> index_keys(
        entries,
    ).insert(time_key(e.timestamp, e.event_id@)).contains(k) by {
        if k.len() == 40 {
            lemma_time_key_split(k);
        }
    }
    assert(index_keys(after) =~= index_keys(entries).insert(time_key(e.timestamp, e.event_id@)));
}

proof fn lemma_keys_remove(entries: Map<Seq<u8>, EventIndexEntry>, id: Seq<u8>)
    requires
        entries.contains_key(id),
        entries[id].event_id@ == id,
    ensures
        index_keys(entries.remove(id)) == index_keys(entries).remove(
            time_key(entries[id].timestamp, id),
        ),
{
    let e = entries[id];
    let before = entries.remove(id);
    lemma_keys_insert(before, e);
    assert(before.insert(e.event_id@, e) =~= entries);
    assert(index_keys(before) =~= index_keys(entries).remove(time_key(e.timestamp, id)));
}

// ---------------------------------------------------------------------------
// Catching up
// ---------------------------------------------------------------------------

/// The index entry of a stored event.
pub open spec fn entry_of(events: Map<Seq<u8>, EventRow>, id: Seq<u8>) -> EventIndexEntry {
    EventIndexEntry {
        event_id: id_with(id),
        timestamp: events[id].timestamp,
        workspace_id: events[id].workspace_id,
    }
}

/// The events of the index together with all shared events of the store. An event that the
/// index has already is kept as it is.
pub open spec fn caught_up(
    entries: Map<Seq<u8>, EventIndexEntry>,
    events: Map<Seq<u8>, EventRow>,
) -> Map<Seq<u8>, EventIndexEntry> {
    Map::new(
        |id: Seq<u8>|
            entries.contains_key(id) || (events.contains_key(id) && events[id].scope is Shared),
        |id: Seq<u8>|
            if entries.contains_key(id) {
                entries[id]
            } else {
                entry_of(events, id)
            },
    )
}

/// The events with the first `n` of some more.
pub open spec fn entries_added(
    entries: Map<Seq<u8>, EventIndexEntry>,
    more: Seq<EventIndexEntry>,
    n: int,
) -> Map<Seq<u8>, EventIndexEntry>
    decreases n,
{
    if n <= 0 {
        entries
    } else {
        entry_added(entries_added(entries, more, n - 1), more[n - 1])
    }
}

/// How many of the first `n` are new.
pub open spec fn new_entries(
    entries: Map<Seq<u8>, EventIndexEntry>,
    more: Seq<EventIndexEntry>,
    n: int,
) -> nat
    decreases n,
{
    if n <= 0 {
        0
    } else {
        new_entries(entries, more, n - 1) + if entries_added(
            entries,
            more,
            n - 1,
        ).contains_key(more[n - 1].event_id@) {
            0nat
        } else {
            1
        }
    }
}

proof fn lemma_entries_added(
    entries: Map<Seq<u8>, EventIndexEntry>,
    events: Map<Seq<u8>, EventRow>,
    more: Seq<EventIndexEntry>,
    n: int,
)
    requires
        0 <= n <= more.len(),
        forall|i: int|
            0 <= i < more.len() ==> (#[trigger] more[i]) == entry_of(events, more[i].event_id@),
    ensures
        forall|id: Seq<u8>| #[trigger]
            entries_added(entries, more, n).contains_key(id) <==> entries.contains_key(id) || exists|
                i: int,
            |
                0 <= i < n && (#[trigger] more[i]).event_id@ == id,
        forall|id: Seq<u8>|
            entries_added(entries, more, n).contains_key(id) ==> #[trigger] entries_added(
                entries,
                more,
                n,
            )[id] == (if entries.contains_key(id) {
                entries[id]
            } else {
                entry_of(events, id)
            }),
    decreases n,
{
    if n > 0 {
        lemma_entries_added(entries, events, more, n - 1);
        let before = entries_added(entries, more, n - 1);
        let after = entries_added(entries, more, n);
        let e = more[n - 1];
        assert forall|id: Seq<u8>| #[trigger] after.contains_key(id) implies entries.contains_key(
            id,
        ) || exists|i: int| 0 <= i < n && (#[trigger] more[i]).event_id@ == id by {
            if before.contains_key(id) {
                if !entries.contains_key(id) {
                    let i = choose|i: int| 0 <= i < n - 1 && (#[trigger] more[i]).event_id@ == id;
                    assert(more[i].event_id@ == id);
                }
            } else {
                assert(more[n - 1].event_id@ == id);
            }
        }
        assert forall|id: Seq<u8>|
            (entries.contains_key(id) || exists|i: int|
                0 <= i < n && (#[trigger] more[i]).event_id@ == id) implies #[trigger] after.contains_key(
            id,
        ) by {
            if !entries.contains_key(id) {
                let i = choose|i: int| 0 <= i < n && (#[trigger] more[i]).event_id@ == id;
                if i < n - 1 {
                    assert(before.contains_key(id));
                }
            } else {
                assert(before.contains_key(id));
            }
        }
        assert forall|id: Seq<u8>| after.contains_key(id) implies #[trigger] after[id] == (
        if entries.contains_key(id) {
            entries[id]
        } else {
            entry_of(events, id)
        }) by {
            if before.contains_key(id) {
                assert(after[id] == before[id]);
            } else {
                assert(!entries.contains_key(id));
            }
        }
    }
}

impl SyncIndex {
    /// Take in all shared events of the store.
    pub fn catch_up(&mut self, store: &Store)
        requires
            old(self).wf(),
            store.wf(),
        ensures
            final(self).wf(),
            final(self)@ == (IndexState {
                entries: caught_up(old(self)@.entries, store@.events.events),
                ..old(self)@
            }),
    {
        let entries = store.events.event_index_entries_in_timestamp_range(0, u64::MAX);
        let ghost events = store@.events.events;
        let ghost start = self@.entries;
        let mut i: usize = 0;
        while i < entries.len()
            invariant
                self.wf(),
                i <= entries@.len(),
                self@ == (IndexState {
                    entries: entries_added(start, entries@, i as int),
                    ..old(self)@
                }),
            decreases entries.len() - i,
        {
            let _ = self.insert_entry(entries[i]);
            i = i + 1;
        }
        proof {
            let all = listing(shared_keys(events));
            let keep = |k: Seq<u8>| 0 <= events[k.skip(8)].timestamp <= u64::MAX;
            lemma_keep_all(all, keep);
            assert(entries_at(events, all, entries@));
            assert forall|j: int| 0 <= j < entries@.len() implies (#[trigger] entries@[j])
                == entry_of(events, entries@[j].event_id@) by {
                assert(entry_at(events, all[j], entries@[j]));
                lemma_id_with(entries@[j].event_id);
            }
            lemma_entries_added(start, events, entries@, entries@.len() as int);
            let done = entries_added(start, entries@, entries@.len() as int);
            assert forall|id: Seq<u8>| #[trigger] done.contains_key(id) <==> caught_up(
                start,
                events,
            ).contains_key(id) by {
                if exists|j: int| 0 <= j < entries@.len() && (#[trigger] entries@[j]).event_id@
                    == id {
                    let j = choose|j: int|
                        0 <= j < entries@.len() && (#[trigger] entries@[j]).event_id@ == id;
                    assert(entry_at(events, all[j], entries@[j]));
                    assert(all.contains(all[j]));
                    assert(shared_keys(events).contains(all[j]));
                }
                if events.contains_key(id) && events[id].scope is Shared {
                    store.events.lemma_ids();
                    let k = time_key(events[id].timestamp, id);
                    lemma_time_key(events[id].timestamp, id);
                    assert(shared_keys(events).contains(k));
                    assert(all.contains(k));
                    let j = choose|j: int| 0 <= j < all.len() && all[j] == k;
                    assert(entry_at(events, all[j], entries@[j]));
                }
            }
            assert(done =~= caught_up(start, events));
        }
    }
}

proof fn lemma_keep_all(s: Seq<Seq<u8>>, keep: spec_fn(Seq<u8>) -> bool)
    requires
        forall|k: Seq<u8>| #[trigger] keep(k),
    ensures
        s.filter(keep) == s,
    decreases s.len(),
{
    reveal(Seq::filter);
    if s.len() > 0 {
        lemma_keep_all(s.drop_last(), keep);
        assert(keep(s.last()));
        assert(s =~= s.drop_last().push(s.last()));
    }
}

/// The index entries of some queued events.
pub open spec fn queued_entries(queued: Seq<(Seq<u8>, EventIndexEntry)>) -> Seq<EventIndexEntry> {
    queued.map_values(|e: (Seq<u8>, EventIndexEntry)| e.1)
}

/// The keys of some queued events.
pub open spec fn queued_keys(queued: Seq<(Seq<u8>, EventIndexEntry)>) -> Set<Seq<u8>> {
    queued.map_values(|e: (Seq<u8>, EventIndexEntry)| e.0).to_set()
}

/// The index, the rows and the number of new events after the first queued events are taken
/// in.
pub open spec fn queue_drained(
    entries: Map<Seq<u8>, EventIndexEntry>,
    m: Rows,
    limit: usize,
) -> Result<(Map<Seq<u8>, EventIndexEntry>, Rows, nat), Seq<char>> {
    match claimed_applied_shared(m, limit) {
        Err(e) => Err("claim applied shared events: "@ + e),
        Ok(queued) => {
            let more = queued_entries(queued);
            Ok(
                (
                    entries_added(entries, more, more.len() as int),
                    rows_removed(m, APPLIED_SHARED_EVENTS, queued_keys(queued)),
                    new_entries(entries, more, more.len() as int),
                ),
            )
        },
    }
}

/// Take in the first `limit` queued events; gives how many were new.
pub(crate) fn drain_queue(store: &mut Store, index: &mut SyncIndex, limit: usize) -> (r: Result<
    usize,
    String,
>)
    requires
        old(store).wf(),
        old(index).wf(),
    ensures
        final(store).wf(),
        final(index).wf(),
        final(store)@.events == old(store)@.events,
        final(index)@.deps == old(index)@.deps,
        match queue_drained(old(index)@.entries, old(store)@.rows, limit) {
            Ok((entries, m, n)) => {
                &&& r == Ok::<usize, String>(n as usize)
                &&& n <= limit
                &&& final(index)@.entries == entries
                &&& final(store)@.rows == m
            },
            Err(e) => {
                &&& r matches Err(x) && x@ == e
                &&& final(index)@ == old(index)@
                &&& final(store)@ == old(store)@
            },
        },
        r matches Ok(n) ==> n > 0 ==> exists|k: Seq<u8>| #[trigger]
            keys_of(old(store)@.rows, APPLIED_SHARED_EVENTS).contains(k) && !keys_of(
                final(store)@.rows,
                APPLIED_SHARED_EVENTS,
            ).contains(k),
{
    let applied = match claim_applied_shared_events(store, limit) {
        Ok(applied) => applied,
        Err(e) => {
            return Err(prefixed("claim applied shared events: ", e));
        },
    };
    let ghost queued = applied_shared_views(applied@);
    let ghost more = queued_entries(queued);
    let ghost start = index@.entries;
    proof {
        assert(queued.len() == applied@.len());
        assert(more.len() == applied@.len());
    }
    let mut keys: Vec<Vec<u8>> = Vec::new();
    let mut n: usize = 0;
    let mut i: usize = 0;
    while i < applied.len()
        invariant
            index.wf(),
            i <= applied@.len(),
            n <= i,
            queued == applied_shared_views(applied@),
            more == queued_entries(queued),
            keys@.len() == i,
            forall|j: int| 0 <= j < i ==> (#[trigger] keys@[j])@ == applied@[j].key@,
            n == new_entries(start, more, i as int),
            index@ == (IndexState {
                entries: entries_added(start, more, i as int),
                ..old(index)@
            }),
        decreases applied.len() - i,
    {
        assert(queued[i as int] == (applied@[i as int].key@, applied@[i as int].entry));
        assert(more[i as int] == applied@[i as int].entry);
        keys.push(copy_bytes(applied[i].key.as_slice()));
        if index.insert_entry(applied[i].entry) {
            n = n + 1;
        }
        i = i + 1;
    }
    let ghost m0 = store@.rows;
    let _ = store.tables.delete_table_rows(APPLIED_SHARED_EVENTS, &keys);
    proof {
        assert(key_views(keys@) =~= queued.map_values(|e: (Seq<u8>, EventIndexEntry)| e.0)) by {
            assert forall|j: int| 0 <= j < keys@.len() implies #[trigger] key_views(keys@)[j]
                == queued.map_values(|e: (Seq<u8>, EventIndexEntry)| e.0)[j] by {
                assert(keys@[j]@ == applied@[j].key@);
                assert(queued[j] == (applied@[j].key@, applied@[j].entry));
            }
        }
        if n > 0 {
            let k = applied@[0].key@;
            assert(keys_of(m0, APPLIED_SHARED_EVENTS).contains(k));
            assert(key_views(keys@)[0] == k);
            assert(key_views(keys@).to_set().contains(k));
            assert(!keys_of(store@.rows, APPLIED_SHARED_EVENTS).contains(k));
        }
        lemma_claimed_len(m0, limit);
    }
    Ok(n)
}

proof fn lemma_claimed_len(m: Rows, limit: usize)
    ensures
        claimed_applied_shared(m, limit) matches Ok(queued) ==> queued.len() <= limit,
{
    let items = rows_listed(m, APPLIED_SHARED_EVENTS, Seq::empty(), limit).map_values(
        |row: (Seq<u8>, Seq<u8>)| applied_shared_of(row),
    );
    lemma_collected_len(items);
}

/// What a drain of the queue counted.
#[derive(Debug, Clone, Copy, PartialEq, Eq)]
pub struct Report {
    /// Events that the index did not have.
    pub indexed_events: usize,
}

/// Work on the index.
#[derive(Debug, Clone, Copy, PartialEq, Eq)]
pub enum Work {
    /// Take in at most `limit` queued events.
    Drain { limit: usize },
}

/// Run one unit of work.
pub fn run(store: &mut Store, index: &mut SyncIndex, work: Work) -> (r: Result<Report, String>)
    requires
        old(store).wf(),
        old(index).wf(),
    ensures
        final(store).wf(),
        final(index).wf(),
        final(store)@.events == old(store)@.events,
        final(index)@.deps == old(index)@.deps,
        work matches Work::Drain { limit } && match queue_drained(
                old(index)@.entries,
                old(store)@.rows,
                limit,
            ) {
                Ok((entries, m, n)) => {
                    &&& r == Ok::<Report, String>(Report { indexed_events: n as usize })
                    &&& n <= limit
                    &&& final(index)@.entries == entries
                    &&& final(store)@.rows == m
                },
                Err(e) => {
                    &&& r matches Err(x) && x@ == e
                    &&& final(index)@ == old(index)@
                    &&& final(store)@ == old(store)@
                },
            },
{
    match work {
        Work::Drain { limit } => match drain_queue(store, index, limit) {
            Ok(n) => Ok(Report { indexed_events: n }),
            Err(e) => Err(e),
        },
    }
}

// ---------------------------------------------------------------------------
// Laws of the summary
// ---------------------------------------------------------------------------

proof fn lemma_xor_swap(a: Seq<u8>, b: Seq<u8>, c: Seq<u8>)
    requires
        a.len() == 32,
    ensures
        xor_bytes(xor_bytes(a, b), c) == xor_bytes(xor_bytes(a, c), b),
        xor_bytes(xor_bytes(a, b), b) == a,
{
    assert forall|i: int| 0 <= i < 32 implies #[trigger] xor_bytes(xor_bytes(a, b), c)[i]
        == xor_bytes(xor_bytes(a, c), b)[i] by {
        let (x, y, z) = (a[i], b[i], c[i]);
        assert((x ^ y) ^ z == (x ^ z) ^ y) by (bit_vector);
    }
    assert forall|i: int| 0 <= i < 32 implies #[trigger] xor_bytes(xor_bytes(a, b), b)[i]
        == a[i] by {
        let (x, y) = (a[i], b[i]);
        assert((x ^ y) ^ y == x) by (bit_vector);
    }
    assert(xor_bytes(xor_bytes(a, b), c) =~= xor_bytes(xor_bytes(a, c), b));
    assert(xor_bytes(xor_bytes(a, b), b) =~= a);
}

/// Where an event stands among others does not matter to their fingerprint.
pub proof fn law_fingerprint_ignores_order(s: Seq<EventIndexEntry>, at: int, e: EventIndexEntry)
    requires
        0 <= at <= s.len(),
    ensures
        fingerprint(s.insert(at, e)) == xor_bytes(fingerprint(s), id_fingerprint(e.event_id)@),
    decreases s.len(),
{
    let t = s.insert(at, e);
    if at == s.len() {
        assert(t.drop_last() =~= s);
    } else {
        law_fingerprint_ignores_order(s.drop_last(), at, e);
        assert(t.drop_last() =~= s.drop_last().insert(at, e));
        assert(t.last() == s.last());
        lemma_fingerprint_len(s.drop_last());
        lemma_xor_swap(
            fingerprint(s.drop_last()),
            id_fingerprint(e.event_id)@,
            id_fingerprint(s.last().event_id)@,
        );
    }
}

proof fn lemma_order_insert(entries: Map<Seq<u8>, EventIndexEntry>, e: EventIndexEntry) -> (at: int)
    requires
        !entries.contains_key(e.event_id@),
        is_listing(listing(index_keys(entries)), index_keys(entries)),
    ensures
        0 <= at <= in_time_order(entries).len(),
        in_time_order(entries.insert(e.event_id@, e)) == in_time_order(entries).insert(at, e),
{
    let after = entries.insert(e.event_id@, e);
    let k = time_key(e.timestamp, e.event_id@);
    let s = listing(index_keys(entries));
    lemma_keys_insert(entries, e);
    lemma_time_key(e.timestamp, e.event_id@);
    let at = crate::table::lemma_listing_place(s, index_keys(entries), k);
    let t = in_time_order(after);
    let want = in_time_order(entries).insert(at, e);
    assert forall|i: int| 0 <= i < want.len() implies #[trigger] t[i] == want[i] by {
        if i < at {
            assert(s.contains(s[i]));
            assert(index_keys(entries).contains(s[i]));
        } else if i > at {
            assert(s.contains(s[i - 1]));
            assert(index_keys(entries).contains(s[i - 1]));
        }
    }
    assert(t =~= want);
    at
}

/// A new event adds one to the count of the summary and its digest to the fingerprint.
pub proof fn law_insert_adds_to_summary(
    entries: Map<Seq<u8>, EventIndexEntry>,
    e: EventIndexEntry,
)
    requires
        !entries.contains_key(e.event_id@),
        is_listing(listing(index_keys(entries)), index_keys(entries)),
    ensures
        in_time_order(entry_added(entries, e)).len() == in_time_order(entries).len() + 1,
        root_summary_of(entry_added(entries, e)).fingerprint@ == xor_bytes(
            root_summary_of(entries).fingerprint@,
            id_fingerprint(e.event_id)@,
        ),
{
    let at = lemma_order_insert(entries, e);
    let s = in_time_order(entries);
    law_fingerprint_ignores_order(s, at, e);
    lemma_fingerprint_len(s);
    lemma_fingerprint_len(s.insert(at, e));
    lemma_id_of(fingerprint(s), id_with(fingerprint(s)));
    lemma_id_of(fingerprint(s.insert(at, e)), id_with(fingerprint(s.insert(at, e))));
}

/// Forgetting an event that was just learned gives the summary of before.
pub proof fn law_remove_undoes_insert(entries: Map<Seq<u8>, EventIndexEntry>, e: EventIndexEntry)
    requires
        !entries.contains_key(e.event_id@),
    ensures
        root_summary_of(entry_added(entries, e).remove(e.event_id@)) == root_summary_of(entries),
{
    assert(entry_added(entries, e).remove(e.event_id@) =~= entries);
}

/// Learning two events in either order gives the same index, and so the same summary.
pub proof fn law_learning_order_does_not_matter(
    entries: Map<Seq<u8>, EventIndexEntry>,
    a: EventIndexEntry,
    b: EventIndexEntry,
)
    requires
        a.event_id != b.event_id,
    ensures
        entry_added(entry_added(entries, a), b) == entry_added(entry_added(entries, b), a),
{
    lemma_id_ext(a.event_id, b.event_id);
    assert(entry_added(entry_added(entries, a), b) =~= entry_added(entry_added(entries, b), a));
}

/// An index without events has the summary of nothing.
pub proof fn law_empty_summary()
    ensures
        summary_of(Seq::empty()).count == 0,
        summary_of(Seq::empty()).fingerprint@ == zero_bytes(),
{
    lemma_id_of(zero_bytes(), id_with(zero_bytes()));
}

/// The ids of some events.
pub open spec fn ids_of(entries: Seq<EventIndexEntry>) -> Seq<EventId> {
    entries.map_values(|e: EventIndexEntry| e.event_id)
}

/// A summary is one of ids: events with the same ids, in any order, have the same summary,
/// whatever their timestamps and workspaces.
pub proof fn law_summary_is_of_ids(a: Seq<EventIndexEntry>, b: Seq<EventIndexEntry>)
    requires
        ids_of(a).to_multiset() == ids_of(b).to_multiset(),
    ensures
        summary_of(a) == summary_of(b),
    decreases a.len(),
{
    broadcast use vstd::seq_lib::group_to_multiset_ensures;

    let (x, y) = (ids_of(a), ids_of(b));
    assert(x.len() == x.to_multiset().len());
    assert(y.len() == y.to_multiset().len());
    assert(a.len() == b.len());
    if a.len() == 0 {
        assert(a =~= b);
    } else {
        let id = x.last();
        assert(x.contains(id));
        assert(x.to_multiset().count(id) > 0);
        assert(y.contains(id));
        let j = choose|j: int| 0 <= j < y.len() && y[j] == id;
        let (p, q) = (a.drop_last(), b.remove(j));
        assert(ids_of(p) =~= x.remove(x.len() - 1));
        assert(ids_of(q) =~= y.remove(j));
        assert(ids_of(p).to_multiset() =~= ids_of(q).to_multiset());
        law_summary_is_of_ids(p, q);
        lemma_fingerprint_len(p);
        lemma_fingerprint_len(q);
        lemma_id_of(fingerprint(p), id_with(fingerprint(p)));
        lemma_id_of(fingerprint(q), id_with(fingerprint(q)));
        assert(fingerprint(p) == fingerprint(q));
        assert(q.insert(j, b[j]) =~= b);
        law_fingerprint_ignores_order(q, j, b[j]);
    }
}

proof fn lemma_fingerprint_joined(a: Seq<EventIndexEntry>, b: Seq<EventIndexEntry>)
    ensures
        fingerprint(a + b) == xor_bytes(fingerprint(a), fingerprint(b)),
    decreases b.len(),
{
    lemma_fingerprint_len(a);
    if b.len() == 0 {
        assert(a + b =~= a);
        assert forall|i: int| 0 <= i < 32 implies fingerprint(a)[i] ^ #[trigger] zero_bytes()[i]
            == fingerprint(a)[i] by {
            let x = fingerprint(a)[i];
            assert(x ^ 0u8 == x) by (bit_vector);
        }
        assert(xor_bytes(fingerprint(a), fingerprint(b)) =~= fingerprint(a));
    } else {
        let p = b.drop_last();
        lemma_fingerprint_joined(a, p);
        assert((a + b).drop_last() =~= a + p);
        let (x, y, z) = (fingerprint(a), fingerprint(p), id_fingerprint(b.last().event_id)@);
        assert forall|i: int| 0 <= i < 32 implies #[trigger] xor_bytes(xor_bytes(x, y), z)[i]
            == xor_bytes(x, xor_bytes(y, z))[i] by {
            let (r, s, t) = (x[i], y[i], z[i]);
            assert((r ^ s) ^ t == r ^ (s ^ t)) by (bit_vector);
        }
        assert(xor_bytes(xor_bytes(x, y), z) =~= xor_bytes(x, xor_bytes(y, z)));
    }
}

/// The summary of two lists together: their counts add up, and its fingerprint is the exclusive
/// or of theirs.
pub proof fn law_joined_summary(a: Seq<EventIndexEntry>, b: Seq<EventIndexEntry>)
    requires
        a.len() + b.len() <= u64::MAX,
    ensures
        summary_of(a + b).count == summary_of(a).count + summary_of(b).count,
        summary_of(a + b).fingerprint@ == xor_bytes(
            summary_of(a).fingerprint@,
            summary_of(b).fingerprint@,
        ),
{
    lemma_fingerprint_joined(a, b);
    lemma_fingerprint_len(a);
    lemma_fingerprint_len(b);
    lemma_fingerprint_len(a + b);
    lemma_id_of(fingerprint(a), id_with(fingerprint(a)));
    lemma_id_of(fingerprint(b), id_with(fingerprint(b)));
    lemma_id_of(fingerprint(a + b), id_with(fingerprint(a + b)));
}

/// Catching up takes in every shared event of the store, and no other: its entry holds its id, its
/// timestamp and its workspace. What the index had stays.
pub proof fn law_every_shared_event_is_indexed(
    entries: Map<Seq<u8>, EventIndexEntry>,
    events: Map<Seq<u8>, EventRow>,
)
    ensures
        forall|id: EventId|
            #![trigger events.contains_key(id@)]
            events.contains_key(id@) && events[id@].scope == EventScope::Shared ==> caught_up(
                entries,
                events,
            ).contains_key(id@) && (entries.contains_key(id@) || caught_up(entries, events)[id@]
                == (EventIndexEntry {
                event_id: id,
                timestamp: events[id@].timestamp,
                workspace_id: events[id@].workspace_id,
            })),
        forall|id: Seq<u8>| #[trigger]
            entries.contains_key(id) ==> caught_up(entries, events).contains_key(id) && caught_up(
                entries,
                events,
            )[id] == entries[id],
        forall|id: Seq<u8>| #[trigger]
            caught_up(entries, events).contains_key(id) && !entries.contains_key(id)
                ==> events.contains_key(id) && events[id].scope == EventScope::Shared,
{
    assert forall|id: EventId|
        #![trigger events.contains_key(id@)]
        events.contains_key(id@) && events[id@].scope == EventScope::Shared implies caught_up(
        entries,
        events,
    ).contains_key(id@) && (entries.contains_key(id@) || caught_up(entries, events)[id@] == (
    EventIndexEntry {
        event_id: id,
        timestamp: events[id@].timestamp,
        workspace_id: events[id@].workspace_id,
    })) by {
        lemma_id_with(id);
    }
}

/// A range holds every entry of the index with a timestamp between its ends, and no other, in the
/// order of timestamps.
pub proof fn law_range_holds_its_entries(
    entries: Map<Seq<u8>, EventIndexEntry>,
    range: TimestampRange,
)
    requires
        entries.dom().finite(),
        valid_entries(entries),
    ensures
        forall|id: Seq<u8>| #[trigger]
            entries.contains_key(id) && range.start <= entries[id].timestamp
                && entries[id].timestamp <= range.end ==> entries_in(entries, range).contains(
                entries[id],
            ),
        forall|e: EventIndexEntry| #[trigger]
            entries_in(entries, range).contains(e) ==> entries.contains_key(e.event_id@)
                && entries[e.event_id@] == e && range.start <= e.timestamp && e.timestamp
                <= range.end,
        entries_in(entries, range).no_duplicates(),
{
    let keys = index_keys(entries);
    lemma_index_keys_finite(entries);
    lemma_listing_exists(keys);
    let all = listing(keys);
    lemma_ascending_distinct(all);
    let ordered = in_time_order(entries);
    let keep = |e: EventIndexEntry| range.holds(e.timestamp);
    assert forall|id: Seq<u8>| #[trigger]
        entries.contains_key(id) && range.start <= entries[id].timestamp && entries[id].timestamp
            <= range.end implies entries_in(entries, range).contains(entries[id]) by {
        let e = entries[id];
        lemma_time_key(e.timestamp, id);
        let k = time_key(e.timestamp, id);
        assert(keys.contains(k));
        let i = choose|i: int| 0 <= i < all.len() && all[i] == k;
        assert(ordered[i] == e);
        ordered.lemma_filter_contains(keep, i);
    }
    assert forall|e: EventIndexEntry| #[trigger] entries_in(entries, range).contains(e) implies {
        &&& entries.contains_key(e.event_id@)
        &&& entries[e.event_id@] == e
        &&& range.start <= e.timestamp
        &&& e.timestamp <= range.end
    } by {
        let some = entries_in(entries, range);
        let j = choose|j: int| 0 <= j < some.len() && some[j] == e;
        ordered.lemma_filter_pred(keep, j);
        ordered.lemma_filter_contains_rev(keep, e);
        let i = choose|i: int| 0 <= i < ordered.len() && ordered[i] == e;
        assert(all.contains(all[i]));
        assert(keys.contains(all[i]));
    }
    assert forall|i: int, j: int| 0 <= i < ordered.len() && 0 <= j < ordered.len() && i
        != j implies ordered[i] != ordered[j] by {
        assert(all.contains(all[i]) && all.contains(all[j]));
        assert(keys.contains(all[i]) && keys.contains(all[j]));
        if ordered[i] == ordered[j] {
            assert(all[i].skip(8) == all[j].skip(8));
            assert(all[i] =~= all[i].take(8) + all[i].skip(8));
            assert(all[j] =~= all[j].take(8) + all[j].skip(8));
        }
    }
    lemma_kept_distinct(ordered, keep);
}

proof fn lemma_kept_distinct<T>(s: Seq<T>, keep: spec_fn(T) -> bool)
    requires
        s.no_duplicates(),
    ensures
        s.filter(keep).no_duplicates(),
    decreases s.len(),
{
    reveal(Seq::filter);
    if s.len() > 0 {
        let rest = s.drop_last();
        lemma_kept_distinct(rest, keep);
        let kept = rest.filter(keep);
        assert forall|i: int| 0 <= i < kept.len() implies kept[i] != s.last() by {
            assert(kept.contains(kept[i]));
            rest.lemma_filter_contains_rev(keep, kept[i]);
            let j = choose|j: int| 0 <= j < rest.len() && rest[j] == kept[i];
            assert(s[j] != s[s.len() - 1]);
        }
    }
}

proof fn lemma_index_keys_finite(entries: Map<Seq<u8>, EventIndexEntry>)
    requires
        entries.dom().finite(),
    ensures
        index_keys(entries).finite(),
    decreases entries.dom().len(),
{
    let f = |id: Seq<u8>| be64(entries[id].timestamp) + id;
    let image = entries.dom().map(f);
    entries.dom().lemma_map_finite(f);
    assert forall|k: Seq<u8>| #[trigger] index_keys(entries).contains(k) implies image.contains(
        k,
    ) by {
        assert(k =~= k.take(8) + k.skip(8));
        assert(f(k.skip(8)) == k);
        assert(entries.dom().contains(k.skip(8)));
    }
    vstd::set_lib::lemma_set_subset_finite(image, index_keys(entries));
}

/// The day of a timestamp begins at a whole number of days, lasts a day, and holds the timestamp;
/// timestamps of the same day have the same range.
pub proof fn law_day_of_a_timestamp(timestamp: u64)
    ensures
        day_range(timestamp).start <= timestamp,
        timestamp <= day_range(timestamp).end,
        day_range(timestamp).start % 86_400_000 == 0,
        day_range(timestamp).end == u64::MAX || day_range(timestamp).end
            == day_range(timestamp).start + 86_399_999,
        day_range(timestamp).start + 86_399_999 > u64::MAX || day_range(timestamp).end
            == day_range(timestamp).start + 86_399_999,
        forall|other: u64|
            day_range(timestamp).start <= other <= day_range(timestamp).end
                ==> #[trigger] day_range(other) == day_range(timestamp),
        root_range().start == 0,
        root_range().end == u64::MAX,
{
}

/// The index after some events are taken in holds each of them, keeps what it had, and holds
/// nothing else.
pub proof fn law_events_are_taken_in(
    entries: Map<Seq<u8>, EventIndexEntry>,
    more: Seq<EventIndexEntry>,
    n: int,
)
    requires
        0 <= n <= more.len(),
    ensures
        forall|i: int|
            0 <= i < n ==> entries_added(entries, more, n).contains_key(
                (#[trigger] more[i]).event_id@,
            ),
        forall|id: Seq<u8>| #[trigger]
            entries.contains_key(id) ==> entries_added(entries, more, n).contains_key(id)
                && entries_added(entries, more, n)[id] == entries[id],
        forall|id: Seq<u8>| #[trigger]
            entries_added(entries, more, n).contains_key(id) && !entries.contains_key(id)
                ==> exists|i: int|
                0 <= i < n && (#[trigger] more[i]).event_id@ == id && more[i] == entries_added(
                    entries,
                    more,
                    n,
                )[id],
    decreases n,
{
    if n > 0 {
        law_events_are_taken_in(entries, more, n - 1);
        let before = entries_added(entries, more, n - 1);
        let after = entries_added(entries, more, n);
        assert forall|id: Seq<u8>| #[trigger]
            after.contains_key(id) && !entries.contains_key(id) implies exists|i: int|
            0 <= i < n && (#[trigger] more[i]).event_id@ == id && more[i] == after[id] by {
            if before.contains_key(id) {
                let i = choose|i: int|
                    0 <= i < n - 1 && (#[trigger] more[i]).event_id@ == id && more[i]
                        == before[id];
                assert(more[i] == after[id]);
            } else {
                assert(more[n - 1].event_id@ == id);
            }
        }
    }
}

/// What one drain of the queue does, whatever the queue holds: each event that it takes off the
/// queue is in the index afterwards under its id and with its timestamp. Where the limit leaves
/// room the queue is empty then. What the index had stays, and so do the other rows.
pub proof fn law_queue_is_taken_in(
    entries: Map<Seq<u8>, EventIndexEntry>,
    m: Rows,
    limit: usize,
)
    requires
        countable(keys_of(m, APPLIED_SHARED_EVENTS)),
    ensures
        queue_drained(entries, m, limit) matches Ok((after, rest, n)) ==> {
            &&& forall|k: Seq<u8>| #[trigger]
                m.contains_key((APPLIED_SHARED_EVENTS, k)) && !rest.contains_key(
                    (APPLIED_SHARED_EVENTS, k),
                ) ==> after.contains_key(k.skip(8))
            &&& forall|id: Seq<u8>| #[trigger]
                after.contains_key(id) && !entries.contains_key(id) ==> exists|k: Seq<u8>|
                    #[trigger] m.contains_key((APPLIED_SHARED_EVENTS, k)) && k.skip(8) == id
                        && after[id].event_id@ == id && after[id].timestamp == from_be64(k.take(8))
            &&& keys_of(m, APPLIED_SHARED_EVENTS).len() <= limit ==> forall|k: Seq<u8>|
                !#[trigger] rest.contains_key((APPLIED_SHARED_EVENTS, k))
            &&& forall|id: Seq<u8>| #[trigger]
                entries.contains_key(id) ==> after.contains_key(id) && after[id] == entries[id]
            &&& forall|key: (TableName, Seq<u8>)| #[trigger]
                m.contains_key(key) && key.0 != APPLIED_SHARED_EVENTS ==> rest.contains_key(key)
                    && rest[key] == m[key]
            &&& forall|key: (TableName, Seq<u8>)| #[trigger]
                rest.contains_key(key) ==> m.contains_key(key) && rest[key] == m[key]
        },
{
    let t = APPLIED_SHARED_EVENTS;
    let rows = rows_listed(m, t, Seq::empty(), limit);
    let items = rows.map_values(|row: (Seq<u8>, Seq<u8>)| applied_shared_of(row));
    law_first_rows_come_first(m, t, Seq::empty(), limit);
    lemma_collected_at(items);
    assert forall|k: Seq<u8>| has_prefix(k, Seq::<u8>::empty()) by {
        assert(k.take(0) =~= Seq::<u8>::empty());
    }
    if let Ok((after, rest, n)) = queue_drained(entries, m, limit) {
        let queued = claimed_applied_shared(m, limit)->Ok_0;
        let more = queued_entries(queued);
        let keys = queued.map_values(|e: (Seq<u8>, EventIndexEntry)| e.0);
        law_events_are_taken_in(entries, more, more.len() as int);
        assert forall|i: int| 0 <= i < queued.len() implies (#[trigger] queued[i]).0 == rows[i].0
            && queued[i].0.len() == 40 && queued[i].1.event_id@ == queued[i].0.skip(8)
            && queued[i].1.timestamp == from_be64(queued[i].0.take(8)) by {
            assert(items[i] == applied_shared_of(rows[i]));
            let key = rows[i].0;
            lemma_id_of(key.skip(8), queued[i].1.event_id);
        }
        assert forall|k: Seq<u8>| #[trigger]
            m.contains_key((t, k)) && !rest.contains_key((t, k)) implies after.contains_key(
            k.skip(8),
        ) by {
            assert(queued_keys(queued).contains(k));
            let i = choose|i: int| 0 <= i < keys.len() && keys[i] == k;
            assert(queued[i].0 == k);
            assert(more[i].event_id@ == k.skip(8));
        }
        assert forall|id: Seq<u8>| #[trigger]
            after.contains_key(id) && !entries.contains_key(id) implies exists|k: Seq<u8>|
            #[trigger] m.contains_key((t, k)) && k.skip(8) == id && after[id].event_id@ == id
                && after[id].timestamp == from_be64(k.take(8)) by {
            let i = choose|i: int|
                0 <= i < more.len() && (#[trigger] more[i]).event_id@ == id && more[i]
                    == after[id];
            assert(more[i] == queued[i].1);
            assert(m.contains_key((t, rows[i].0)));
        }
        if keys_of(m, t).len() <= limit {
            assert forall|k: Seq<u8>| !#[trigger] rest.contains_key((t, k)) by {
                if m.contains_key((t, k)) {
                    assert(rows.contains((k, m[(t, k)])));
                    let i = choose|i: int| 0 <= i < rows.len() && rows[i] == (k, m[(t, k)]);
                    assert(queued[i].0 == k);
                    assert(keys[i] == k);
                    assert(queued_keys(queued).contains(k));
                }
            }
        }
    }
}

/// The entries of a range come in the order of their timestamps.
pub proof fn law_entries_come_in_time_order(
    entries: Map<Seq<u8>, EventIndexEntry>,
    range: TimestampRange,
    i: int,
    j: int,
)
    requires
        entries.dom().finite(),
        0 <= i < j < entries_in(entries, range).len(),
    ensures
        entries_in(entries, range)[i].timestamp <= entries_in(entries, range)[j].timestamp,
{
    let keys = index_keys(entries);
    lemma_index_keys_finite(entries);
    lemma_listing_exists(keys);
    let all = listing(keys);
    let ordered = in_time_order(entries);
    let keep = |e: EventIndexEntry| range.holds(e.timestamp);
    assert forall|a: int, b: int| 0 <= a < b < ordered.len() implies (
    #[trigger] ordered[a]).timestamp <= (#[trigger] ordered[b]).timestamp by {
        assert(all.contains(all[a]) && all.contains(all[b]));
        assert(keys.contains(all[a]) && keys.contains(all[b]));
        let (k, l) = (all[a], all[b]);
        let (x, y) = (ordered[a].timestamp, ordered[b].timestamp);
        assert(k =~= be64(x) + k.skip(8));
        assert(l =~= be64(y) + l.skip(8));
        assert(lex_lt(k, l));
        if y < x {
            lemma_be64_ordered(y, x, l.skip(8), k.skip(8));
            lemma_lex_transitive(k, l, k);
            lemma_lex_irreflexive(k);
        }
    }
    lemma_kept_in_order(ordered, keep);
}

/// Some entries come in the order of their timestamps.
pub open spec fn timestamps_ascend(s: Seq<EventIndexEntry>) -> bool {
    forall|a: int, b: int|
        0 <= a < b < s.len() ==> (#[trigger] s[a]).timestamp <= (#[trigger] s[b]).timestamp
}

/// What is left of entries in the order of their timestamps is in that order.
pub proof fn lemma_kept_in_order(s: Seq<EventIndexEntry>, keep: spec_fn(EventIndexEntry) -> bool)
    requires
        timestamps_ascend(s),
    ensures
        timestamps_ascend(s.filter(keep)),
    decreases s.len(),
{
    reveal(Seq::filter);
    if s.len() > 0 {
        let rest = s.drop_last();
        lemma_kept_in_order(rest, keep);
        let kept = rest.filter(keep);
        assert forall|a: int| 0 <= a < kept.len() implies (#[trigger] kept[a]).timestamp
            <= s.last().timestamp by {
            assert(kept.contains(kept[a]));
            rest.lemma_filter_contains_rev(keep, kept[a]);
            let j = choose|j: int| 0 <= j < rest.len() && rest[j] == kept[a];
            assert(s[j].timestamp <= s[s.len() - 1].timestamp);
        }
    }
}

/// A summary counts its events, and each event adds the digest of its own id, behind the text
/// `sync-event-id:`, to the fingerprint; no events have the fingerprint zero.
pub proof fn law_summary_counts_and_mixes(s: Seq<EventIndexEntry>, e: EventIndexEntry)
    requires
        s.len() < u64::MAX,
    ensures
        summary_of(s).count == s.len(),
        summary_of(s.push(e)).count == s.len() + 1,
        summary_of(Seq::empty()).fingerprint@ == zero_bytes(),
        forall|i: int|
            0 <= i < 32 ==> #[trigger] summary_of(s.push(e)).fingerprint@[i] == summary_of(
                s,
            ).fingerprint@[i] ^ blake3_digest(
                seq![115u8, 121, 110, 99, 45, 101, 118, 101, 110, 116, 45, 105, 100, 58]
                    + e.event_id@,
            )@[i],
{
    let t = s.push(e);
    assert(t.drop_last() =~= s);
    lemma_fingerprint_len(s);
    lemma_fingerprint_len(t);
    lemma_fingerprint_len(Seq::empty());
    lemma_id_of(fingerprint(s), id_with(fingerprint(s)));
    lemma_id_of(fingerprint(t), id_with(fingerprint(t)));
    lemma_id_of(fingerprint(Seq::empty()), id_with(fingerprint(Seq::empty())));
}

} // verus!
