//! The event pipeline: admit canonical events, hold them back until their dependencies
//! are applied, project ready events through the registry, and unblock what waited.
//!
//! A batch is admitted as a whole or not at all. An event is stored under its id once;
//! admitting it again changes nothing.
use vstd::prelude::*;
use crate::bytes::{
    bytes_eq, id_eq, id_lt, lemma_id_ext, lemma_lex_irreflexive, lemma_lex_total,
    lemma_lex_transitive, lex_lt, EventId,
};
use crate::event_store::{id_views, label_views, row_of_record, time_key, EventState};
use crate::hash::{event_id, event_id_of};
use crate::store::{Store, StoreState};
use crate::table::{is_listing, key_views, lemma_listing_is, listing};
use crate::tables::{row_views, rows_added, RowView, TableRow};
use crate::text::{prefixed, text};
use crate::types::{
    duplicate_receive, receive_view, EventLabel, EventRecord, EventStatus, ReceiveMetadata,
    ReceiveView, RecordView,
};
use crate::unblocking::{unblock_dependents, unblocked, unblocked_count};

verus! {

/// How many ready events one drain takes by default.
pub const DEFAULT_READY_BATCH: usize = 4096;

// ---------------------------------------------------------------------------
// Proposals, projections, contexts
// ---------------------------------------------------------------------------

/// A canonical event that a command proposes. It carries the id of its bytes.
#[derive(Debug, PartialEq, Eq)]
pub struct ProposedEvent {
    event_id: EventId,
    record: EventRecord,
    receive: Option<ReceiveMetadata>,
}

/// What a proposal says.
pub struct ProposalView {
    pub record: RecordView,
    pub receive: Option<ReceiveView>,
}

impl ProposalView {
    /// The id of the proposed event.
    pub open spec fn id(self) -> EventId {
        event_id_of(self.record.canonical_bytes)
    }
}

impl View for ProposedEvent {
    type V = ProposalView;

    closed spec fn view(&self) -> ProposalView {
        ProposalView { record: self.record@, receive: receive_view(self.receive) }
    }
}

impl ProposedEvent {
    #[verifier::type_invariant]
    spec fn named(&self) -> bool {
        self.event_id == event_id_of(self.record.canonical_bytes@)
    }

    /// Propose a record.
    pub fn new(record: EventRecord) -> (p: ProposedEvent)
        ensures
            p@ == (ProposalView { record: record@, receive: None }),
    {
        let event_id = event_id(record.canonical_bytes.as_slice());
        ProposedEvent { event_id, record, receive: None }
    }

    /// Propose a record with what is known of how it was received.
    fn contextual(record: EventRecord, receive: Option<ReceiveMetadata>) -> (p: ProposedEvent)
        ensures
            p@ == (ProposalView { record: record@, receive: receive_view(receive) }),
    {
        let event_id = event_id(record.canonical_bytes.as_slice());
        ProposedEvent { event_id, record, receive }
    }

    /// The id of the event.
    pub fn event_id(&self) -> (id: EventId)
        ensures
            id == self@.id(),
    {
        proof {
            use_type_invariant(&*self);
        }
        self.event_id
    }

    /// The record.
    pub fn record(&self) -> (r: &EventRecord)
        ensures
            r@ == self@.record,
    {
        &self.record
    }

    /// How the event was received.
    pub(crate) fn receive(&self) -> (r: Option<ReceiveMetadata>)
        ensures
            receive_view(r) == self@.receive,
    {
        duplicate_receive(&self.receive)
    }

    /// The record, without the proposal.
    pub fn into_record(self) -> (r: EventRecord)
        ensures
            r@ == self@.record,
    {
        self.record
    }
}

impl Clone for ProposedEvent {
    fn clone(&self) -> (r: ProposedEvent)
        ensures
            r@ == self@,
    {
        proof {
            use_type_invariant(&*self);
        }
        ProposedEvent {
            event_id: self.event_id,
            record: self.record.duplicate(),
            receive: duplicate_receive(&self.receive),
        }
    }
}

/// What a projector writes: table rows and event labels.
#[derive(Debug, Clone, PartialEq, Eq)]
pub struct ProjectionOutput {
    pub rows: Vec<TableRow>,
    pub labels: Vec<EventLabel>,
}

/// What a projection says.
pub struct OutputView {
    pub rows: Seq<RowView>,
    pub labels: Seq<(Seq<u8>, Seq<u8>)>,
}

impl View for ProjectionOutput {
    type V = OutputView;

    open spec fn view(&self) -> OutputView {
        OutputView { rows: row_views(self.rows@), labels: label_views(self.labels@) }
    }
}

impl Default for ProjectionOutput {
    fn default() -> (r: ProjectionOutput)
        ensures
            r.rows@ == Seq::<TableRow>::empty(),
            r.labels@ == Seq::<EventLabel>::empty(),
    {
        ProjectionOutput { rows: Vec::new(), labels: Vec::new() }
    }
}

impl ProjectionOutput {
    /// Rows and no labels.
    pub fn rows(rows: Vec<TableRow>) -> (r: ProjectionOutput)
        ensures
            r.rows@ == rows@,
            r.labels@ == Seq::<EventLabel>::empty(),
    {
        ProjectionOutput { rows, labels: Vec::new() }
    }

    /// Labels and no rows.
    pub fn labels(labels: Vec<EventLabel>) -> (r: ProjectionOutput)
        ensures
            r.rows@ == Seq::<TableRow>::empty(),
            r.labels@ == labels@,
    {
        ProjectionOutput { rows: Vec::new(), labels }
    }

    /// Rows and labels.
    pub fn rows_and_labels(rows: Vec<TableRow>, labels: Vec<EventLabel>) -> (r: ProjectionOutput)
        ensures
            r.rows@ == rows@,
            r.labels@ == labels@,
    {
        ProjectionOutput { rows, labels }
    }

    /// Put the rows and labels of another projection behind those of this one.
    pub fn append(&mut self, other: ProjectionOutput)
        ensures
            final(self).rows@ == old(self).rows@ + other.rows@,
            final(self).labels@ == old(self).labels@ + other.labels@,
    {
        let mut rows = other.rows;
        let mut labels = other.labels;
        self.rows.append(&mut rows);
        self.labels.append(&mut labels);
    }
}

/// One dependency of an event, as projectors see it.
#[derive(Debug, Clone, PartialEq, Eq)]
pub struct DependencyContext {
    pub event_id: EventId,
    pub record: EventRecord,
}

/// What every projector gets besides the record.
#[derive(Debug, Clone, PartialEq, Eq)]
pub struct EventContext {
    pub event_id: EventId,
    pub dependencies: Vec<DependencyContext>,
    pub labels: Vec<Vec<u8>>,
    pub receive: Option<ReceiveMetadata>,
}

/// What an event context says.
pub struct ContextView {
    pub event_id: Seq<u8>,
    pub dependencies: Seq<(Seq<u8>, RecordView)>,
    pub labels: Seq<Seq<u8>>,
    pub receive: Option<ReceiveView>,
}

/// What a sequence of dependencies says.
pub open spec fn dependency_views(d: Seq<DependencyContext>) -> Seq<(Seq<u8>, RecordView)> {
    d.map_values(|x: DependencyContext| (x.event_id@, x.record@))
}

impl View for EventContext {
    type V = ContextView;

    open spec fn view(&self) -> ContextView {
        ContextView {
            event_id: self.event_id@,
            dependencies: dependency_views(self.dependencies@),
            labels: key_views(self.labels@),
            receive: receive_view(self.receive),
        }
    }
}

impl EventContext {
    /// The record of a dependency: that of the first one with the id.
    pub fn dependency(&self, event_id: &EventId) -> (r: Option<&EventRecord>)
        ensures
            r.is_none() <==> forall|i: int|
                0 <= i < self.dependencies@.len() ==> (#[trigger] self.dependencies@[i]).event_id
                    != *event_id,
            r matches Some(record) ==> exists|i: int|
                0 <= i < self.dependencies@.len() && (#[trigger] self.dependencies@[i]).event_id
                    == *event_id && self.dependencies@[i].record == *record && forall|j: int|
                    0 <= j < i ==> (#[trigger] self.dependencies@[j]).event_id != *event_id,
    {
        let mut i: usize = 0;
        while i < self.dependencies.len()
            invariant
                i <= self.dependencies@.len(),
                forall|j: int|
                    0 <= j < i ==> (#[trigger] self.dependencies@[j]).event_id != *event_id,
            decreases self.dependencies.len() - i,
        {
            if id_eq(&self.dependencies[i].event_id, event_id) {
                assert(self.dependencies@[i as int].event_id == *event_id);
                return Some(&self.dependencies[i].record);
            }
            i = i + 1;
        }
        None
    }

    /// Whether the event has a label.
    pub fn has_label(&self, label: &[u8]) -> (r: bool)
        ensures
            r == key_views(self.labels@).contains(label@),
    {
        let mut i: usize = 0;
        while i < self.labels.len()
            invariant
                i <= self.labels@.len(),
                forall|j: int| 0 <= j < i ==> (#[trigger] self.labels@[j])@ != label@,
            decreases self.labels.len() - i,
        {
            if bytes_eq(self.labels[i].as_slice(), label) {
                assert(key_views(self.labels@)[i as int] == label@);
                return true;
            }
            i = i + 1;
        }
        proof {
            if key_views(self.labels@).contains(label@) {
                let j = choose|j: int|
                    0 <= j < key_views(self.labels@).len() && key_views(self.labels@)[j] == label@;
                assert(self.labels@[j]@ == label@);
            }
        }
        false
    }
}

/// A record together with its context.
#[derive(Debug, Clone, PartialEq, Eq)]
pub struct EventWithContext<'a> {
    pub record: &'a EventRecord,
    pub context: EventContext,
}

/// The result of a command: a value, and the events that it proposes.
#[derive(Debug, Clone, PartialEq, Eq)]
pub struct CommandOutput<T> {
    pub value: T,
    pub events: Vec<ProposedEvent>,
}

/// What a sequence of proposals says.
pub open spec fn proposal_views(events: Seq<ProposedEvent>) -> Seq<ProposalView> {
    events.map_values(|e: ProposedEvent| e@)
}

/// Records as proposals.
pub open spec fn record_proposals(records: Seq<EventRecord>) -> Seq<ProposalView> {
    records.map_values(|r: EventRecord| ProposalView { record: r@, receive: None })
}

/// Propose records.
fn propose(records: Vec<EventRecord>) -> (r: Vec<ProposedEvent>)
    ensures
        proposal_views(r@) == record_proposals(records@),
{
    let mut out: Vec<ProposedEvent> = Vec::new();
    let mut rest = records;
    let ghost all = records@;
    let mut rev: Vec<EventRecord> = Vec::new();
    while rest.len() > 0
        invariant
            rest@ + rev@.reverse() == all,
        decreases rest.len(),
    {
        let ghost before = rest@;
        let ghost done = rev@;
        let record = rest.pop().unwrap();
        rev.push(record);
        proof {
            assert(before =~= rest@.push(record));
            assert(rev@.reverse() =~= seq![record] + done.reverse());
            assert(rest@ + rev@.reverse() =~= before + done.reverse());
        }
    }
    assert(rev@.reverse() =~= all);
    proof {
        assert(proposal_views(out@) =~= record_proposals(all.take(0)));
    }
    while rev.len() > 0
        invariant
            rev@.len() <= all.len(),
            rev@.reverse() == all.skip(all.len() - rev@.len()),
            proposal_views(out@) == record_proposals(all.take(all.len() - rev@.len())),
        decreases rev.len(),
    {
        let ghost before = rev@;
        let ghost n = all.len() - rev@.len();
        let ghost prev = out@;
        let record = rev.pop().unwrap();
        proof {
            assert(before.reverse()[0] == record);
            assert(all.skip(n)[0] == all[n]);
            assert(rev@.reverse() =~= before.reverse().skip(1));
            assert(all.skip(n).skip(1) =~= all.skip(n + 1));
            assert(all.take(n + 1) =~= all.take(n).push(all[n]));
        }
        let p = ProposedEvent::new(record);
        out.push(p);
        proof {
            assert(proposal_views(out@) =~= proposal_views(prev).push(p@));
            assert(record_proposals(all.take(n + 1)) =~= record_proposals(all.take(n)).push(p@));
        }
    }
    assert(all.take(all.len() as int) =~= all);
    out
}

impl<T> CommandOutput<T> {
    /// A value without events.
    pub fn new(value: T) -> (r: CommandOutput<T>)
        ensures
            r.value == value,
            r.events@ == Seq::<ProposedEvent>::empty(),
    {
        CommandOutput { value, events: Vec::new() }
    }

    /// A value with records to propose.
    pub fn with_events(value: T, events: Vec<EventRecord>) -> (r: CommandOutput<T>)
        ensures
            r.value == value,
            proposal_views(r.events@) == record_proposals(events@),
    {
        CommandOutput { value, events: propose(events) }
    }

    /// A value with proposals.
    pub fn with_proposed_events(value: T, events: Vec<ProposedEvent>) -> (r: CommandOutput<T>)
        ensures
            r.value == value,
            r.events@ == events@,
    {
        CommandOutput { value, events }
    }

    /// The same with further proposals in front.
    pub fn prepend_events(self, events: Vec<ProposedEvent>) -> (r: CommandOutput<T>)
        ensures
            r.value == self.value,
            r.events@ == events@ + self.events@,
    {
        let mut all = events;
        let mut own = self.events;
        all.append(&mut own);
        CommandOutput { value: self.value, events: all }
    }
}

/// The event modules: how canonical bytes are decoded, and what a record projects to.
///
/// Both are functions of what they are given: the same bytes decode to the same record,
/// and the same record in the same context and store projects to the same rows and labels.
/// Which record, and which rows and labels, is for each registry to say.
pub trait EventRegistry {
    /// What canonical bytes decode to, or why they do not.
    closed spec fn decoded(&self, bytes: Seq<u8>) -> Result<RecordView, Seq<char>> {
        arbitrary()
    }

    /// What a record projects to, or why it does not.
    closed spec fn projected(&self, store: StoreState, record: RecordView, context: ContextView) -> Result<
        OutputView,
        Seq<char>,
    > {
        arbitrary()
    }

    fn record_from_bytes(&self, bytes: Vec<u8>) -> (r: Result<EventRecord, String>)
        ensures
            match r {
                Ok(record) => self.decoded(bytes@) == Ok::<RecordView, Seq<char>>(record@),
                Err(e) => self.decoded(bytes@) == Err::<RecordView, Seq<char>>(e@),
            },
    ;

    fn project_record(&self, store: &Store, event: &EventWithContext<'_>) -> (r: Result<
        ProjectionOutput,
        String,
    >)
        requires
            store.wf(),
        ensures
            match r {
                Ok(output) => self.projected(store@, event.record@, event.context@) == Ok::<
                    OutputView,
                    Seq<char>,
                >(output@),
                Err(e) => self.projected(store@, event.record@, event.context@) == Err::<
                    OutputView,
                    Seq<char>,
                >(e@),
            },
    ;
}

// ---------------------------------------------------------------------------
// Dependencies
// ---------------------------------------------------------------------------

/// The bytes of the ids in a sequence.
pub open spec fn id_set(ids: Seq<EventId>) -> Set<Seq<u8>> {
    Set::new(|b: Seq<u8>| exists|i: int| 0 <= i < ids.len() && (#[trigger] ids[i])@ == b)
}

/// Each dependency once, in the order of the ids.
pub open spec fn unique_ids(ids: Seq<EventId>) -> Seq<Seq<u8>> {
    listing(id_set(ids))
}

/// The dependencies that are not applied, each once, in the order of the ids.
pub open spec fn missing_ids(s: EventState, ids: Seq<EventId>) -> Seq<Seq<u8>> {
    unique_ids(ids).filter(|d: Seq<u8>| !s.applied(d))
}

/// Put an id in its place, once.
fn insert_id(ids: &mut Vec<EventId>, id: EventId, Ghost(set): Ghost<Set<Seq<u8>>>)
    requires
        is_listing(id_views(old(ids)@), set),
    ensures
        is_listing(id_views(final(ids)@), set.insert(id@)),
{
    let mut at: usize = 0;
    while at < ids.len() && id_lt(&ids[at], &id)
        invariant
            at <= ids@.len(),
            ids@ == old(ids)@,
            forall|i: int| 0 <= i < at ==> lex_lt((#[trigger] ids@[i])@, id@),
        decreases ids.len() - at,
    {
        at = at + 1;
    }
    if at < ids.len() && id_eq(&ids[at], &id) {
        proof {
            assert(id_views(ids@)[at as int] == id@);
            assert(id_views(ids@).contains(id@));
            assert(set.insert(id@) =~= set);
        }
        return;
    }
    let ghost before = id_views(ids@);
    ids.insert(at, id);
    proof {
        let s = id_views(ids@);
        assert(s =~= before.insert(at as int, id@));
        assert forall|i: int, j: int| 0 <= i < j < s.len() implies lex_lt(
            #[trigger] s[i],
            #[trigger] s[j],
        ) by {
            if i < at && j < at {
                assert(s[i] == before[i] && s[j] == before[j]);
            } else if i < at && j == at {
                assert(ids@[i] == old(ids)@[i]);
            } else if i < at {
                assert(s[i] == before[i] && s[j] == before[j - 1]);
            } else if i == at {
                assert(s[j] == before[j - 1]);
                let head = before[at as int];
                lemma_lex_total(head, id@);
                assert(head == old(ids)@[at as int]@);
                if j - 1 > at {
                    assert(lex_lt(before[at as int], before[j - 1]));
                    lemma_lex_transitive(id@, head, s[j]);
                }
            } else {
                assert(s[i] == before[i - 1] && s[j] == before[j - 1]);
            }
        }
        assert forall|k: Seq<u8>| #[trigger] set.insert(id@).contains(k) <==> s.contains(k) by {
            if s.contains(k) && k != id@ {
                let i = choose|i: int| 0 <= i < s.len() && s[i] == k;
                let i0 = if i < at {
                    i
                } else {
                    i - 1
                };
                assert(before[i0] == k);
                assert(before.contains(k));
            }
            if before.contains(k) {
                let i = choose|i: int| 0 <= i < before.len() && before[i] == k;
                let i1 = if i < at {
                    i
                } else {
                    i + 1
                };
                assert(s[i1] == k);
            }
            assert(s[at as int] == id@);
        }
    }
}

/// Each dependency once, in the order of the ids.
pub fn unique_dependencies(dependencies: &Vec<EventId>) -> (r: Vec<EventId>)
    ensures
        id_views(r@) == unique_ids(dependencies@),
        is_listing(id_views(r@), id_set(dependencies@)),
        forall|i: int, j: int| 0 <= i < j < r@.len() ==> lex_lt(#[trigger] r@[i]@, #[trigger] r@[j]@),
        forall|id: EventId| #[trigger] r@.contains(id) <==> dependencies@.contains(id),
{
    let mut out: Vec<EventId> = Vec::new();
    let mut i: usize = 0;
    proof {
        assert(id_set(dependencies@.take(0)) =~= Set::empty());
        assert(id_views(out@) =~= Seq::<Seq<u8>>::empty());
    }
    while i < dependencies.len()
        invariant
            i <= dependencies@.len(),
            is_listing(id_views(out@), id_set(dependencies@.take(i as int))),
        decreases dependencies.len() - i,
    {
        let ghost seen = id_set(dependencies@.take(i as int));
        insert_id(&mut out, dependencies[i], Ghost(seen));
        proof {
            let (a, b) = (dependencies@.take(i as int), dependencies@.take(i + 1));
            assert forall|k: Seq<u8>| #[trigger] id_set(b).contains(k) <==> seen.insert(
                dependencies@[i as int]@,
            ).contains(k) by {
                if id_set(b).contains(k) {
                    let j = choose|j: int| 0 <= j < b.len() && (#[trigger] b[j])@ == k;
                    if j < i {
                        assert(a[j]@ == k);
                    }
                }
                if seen.contains(k) {
                    let j = choose|j: int| 0 <= j < a.len() && (#[trigger] a[j])@ == k;
                    assert(b[j]@ == k);
                }
                assert(b[i as int]@ == dependencies@[i as int]@);
            }
            assert(id_set(b) =~= seen.insert(dependencies@[i as int]@));
        }
        i = i + 1;
    }
    proof {
        assert(dependencies@.take(i as int) =~= dependencies@);
        lemma_listing_is(id_views(out@), id_set(dependencies@));
        let all = id_views(out@);
        assert forall|i: int, j: int| 0 <= i < j < out@.len() implies lex_lt(
            #[trigger] out@[i]@,
            #[trigger] out@[j]@,
        ) by {
            assert(lex_lt(all[i], all[j]));
        }
        assert forall|id: EventId| #[trigger]
            out@.contains(id) <==> dependencies@.contains(id) by {
            broadcast use lemma_id_ext;

            if out@.contains(id) {
                let i = choose|i: int| 0 <= i < out@.len() && out@[i] == id;
                assert(all[i] == id@);
                assert(all.contains(id@));
                assert(id_set(dependencies@).contains(id@));
                let j = choose|j: int|
                    0 <= j < dependencies@.len() && (#[trigger] dependencies@[j])@ == id@;
                assert(dependencies@[j] == id);
            }
            if dependencies@.contains(id) {
                let j = choose|j: int| 0 <= j < dependencies@.len() && dependencies@[j] == id;
                assert(dependencies@[j]@ == id@);
                assert(id_set(dependencies@).contains(id@));
                assert(all.contains(id@));
                let i = choose|i: int| 0 <= i < all.len() && all[i] == id@;
                assert(out@[i]@ == id@);
                assert(out@[i] == id);
            }
        }
    }
    out
}

/// The dependencies that are not applied.
fn missing_dependencies(store: &Store, dependencies: &Vec<EventId>) -> (r: Vec<EventId>)
    requires
        store.wf(),
    ensures
        id_views(r@) == missing_ids(store@.events, dependencies@),
        r@.len() <= dependencies@.len(),
{
    let unique = unique_dependencies(dependencies);
    let ghost all = id_views(unique@);
    let ghost keep = |d: Seq<u8>| !store@.events.applied(d);
    let mut missing: Vec<EventId> = Vec::new();
    let mut i: usize = 0;
    proof {
        reveal(Seq::filter);
        assert(all.take(0).filter(keep) =~= Seq::<Seq<u8>>::empty());
        assert(id_views(missing@) =~= Seq::<Seq<u8>>::empty());
        lemma_unique_len(unique@, dependencies@);
    }
    while i < unique.len()
        invariant
            store.wf(),
            i <= unique@.len(),
            missing@.len() <= i,
            all == id_views(unique@),
            keep == (|d: Seq<u8>| !store@.events.applied(d)),
            id_views(missing@) == all.take(i as int).filter(keep),
        decreases unique.len() - i,
    {
        let id = unique[i];
        proof {
            reveal(Seq::filter);
            assert(all.take(i + 1).drop_last() =~= all.take(i as int));
            assert(all[i as int] == id@);
        }
        if !store.events.event_is_applied(&id) {
            let ghost before = missing@;
            missing.push(id);
            assert(id_views(missing@) =~= id_views(before).push(id@));
        }
        i = i + 1;
    }
    assert(all.take(i as int) =~= all);
    missing
}

/// There are no more different ids than ids.
proof fn lemma_unique_len(unique: Seq<EventId>, ids: Seq<EventId>)
    requires
        is_listing(id_views(unique), id_set(ids)),
    ensures
        unique.len() <= ids.len(),
{
    let u = id_views(unique);
    crate::table::lemma_ascending_distinct(u);
    u.unique_seq_to_set();
    let v = id_views(ids);
    assert(u.to_set() =~= v.to_set()) by {
        assert forall|k: Seq<u8>| u.contains(k) <==> #[trigger] v.contains(k) by {
            if u.contains(k) {
                assert(id_set(ids).contains(k));
                let i = choose|i: int| 0 <= i < ids.len() && (#[trigger] ids[i])@ == k;
                assert(v[i] == k);
            }
            if v.contains(k) {
                let i = choose|i: int| 0 <= i < v.len() && v[i] == k;
                assert(ids[i]@ == k);
                assert(id_set(ids).contains(k));
            }
        }
    }
    v.lemma_cardinality_of_set();
}

// ---------------------------------------------------------------------------
// Projection
// ---------------------------------------------------------------------------

/// An error of an event module as the store reports it.
pub open spec fn module_error_text(e: Seq<char>) -> Seq<char> {
    "Invalid parameter name: "@ + e
}

pub fn module_error(e: String) -> (r: String)
    ensures
        r@ == module_error_text(e@),
{
    prefixed("Invalid parameter name: ", e)
}

/// The records of the first `n` dependencies, or the first failure on the way.
pub open spec fn loaded_dependencies<R: EventRegistry>(
    reg: &R,
    s: EventState,
    ids: Seq<Seq<u8>>,
    n: int,
) -> Result<Seq<(Seq<u8>, RecordView)>, Seq<char>>
    decreases n,
{
    if n <= 0 {
        Ok(Seq::empty())
    } else {
        match loaded_dependencies(reg, s, ids, n - 1) {
            Err(e) => Err(e),
            Ok(found) => {
                let id = ids[n - 1];
                if !s.events.contains_key(id) {
                    Err("Query returned no rows"@)
                } else {
                    match reg.decoded(s.events[id].canonical_bytes) {
                        Err(e) => Err(module_error_text(e)),
                        Ok(record) => Ok(found.push((id, record))),
                    }
                }
            },
        }
    }
}

/// The context of an event, or why it cannot be loaded.
pub open spec fn loaded_context<R: EventRegistry>(
    reg: &R,
    s: EventState,
    id: Seq<u8>,
    record: RecordView,
    receive: Option<ReceiveView>,
) -> Result<ContextView, Seq<char>> {
    let ids = unique_ids(record.dependencies);
    match loaded_dependencies(reg, s, ids, ids.len() as int) {
        Err(e) => Err(e),
        Ok(dependencies) => Ok(
            ContextView {
                event_id: id,
                dependencies,
                labels: listing(s.labels_of(id)),
                receive,
            },
        ),
    }
}

/// The store with a projection written to it.
pub open spec fn written(s: StoreState, output: OutputView) -> StoreState {
    StoreState {
        rows: rows_added(s.rows, output.rows, output.rows.len() as int),
        events: s.events.with_labels(output.labels),
    }
}

/// The store after an event is projected in its context, or why it cannot be.
pub open spec fn projected_store<R: EventRegistry>(
    reg: &R,
    s: StoreState,
    id: Seq<u8>,
    record: RecordView,
    receive: Option<ReceiveView>,
) -> Result<StoreState, Seq<char>> {
    match loaded_context(reg, s.events, id, record, receive) {
        Err(e) => Err(e),
        Ok(context) => match reg.projected(s, record, context) {
            Err(e) => Err(module_error_text(e)),
            Ok(output) => Ok(written(s, output)),
        },
    }
}

/// Load the context of an event.
fn load_event_context<R: EventRegistry>(
    store: &Store,
    reg: &R,
    event_id: &EventId,
    record: &EventRecord,
    receive: Option<ReceiveMetadata>,
) -> (r: Result<EventContext, String>)
    requires
        store.wf(),
    ensures
        match r {
            Ok(context) => loaded_context(
                reg,
                store@.events,
                event_id@,
                record@,
                receive_view(receive),
            ) == Ok::<ContextView, Seq<char>>(context@),
            Err(e) => loaded_context(
                reg,
                store@.events,
                event_id@,
                record@,
                receive_view(receive),
            ) == Err::<ContextView, Seq<char>>(e@),
        },
{
    let ids = unique_dependencies(&record.dependencies);
    let ghost all = id_views(ids@);
    let mut dependencies: Vec<DependencyContext> = Vec::new();
    let mut i: usize = 0;
    assert(dependency_views(dependencies@) =~= Seq::<(Seq<u8>, RecordView)>::empty());
    while i < ids.len()
        invariant
            store.wf(),
            i <= ids@.len(),
            all == id_views(ids@),
            all == unique_ids(record@.dependencies),
            loaded_dependencies(reg, store@.events, all, i as int) == Ok::<
                Seq<(Seq<u8>, RecordView)>,
                Seq<char>,
            >(dependency_views(dependencies@)),
        decreases ids.len() - i,
    {
        let id = ids[i];
        assert(all[i as int] == id@);
        let bytes = match store.events.event_bytes(&id) {
            Some(bytes) => bytes,
            None => {
                proof {
                    lemma_load_fails(reg, store@.events, all, i + 1);
                }
                return Err(text("Query returned no rows"));
            },
        };
        let found = match reg.record_from_bytes(bytes) {
            Ok(found) => found,
            Err(e) => {
                proof {
                    lemma_load_fails(reg, store@.events, all, i + 1);
                }
                return Err(module_error(e));
            },
        };
        let ghost before = dependencies@;
        dependencies.push(DependencyContext { event_id: id, record: found });
        assert(dependency_views(dependencies@) =~= dependency_views(before).push((id@, found@)));
        i = i + 1;
    }
    let labels = store.events.event_labels(event_id);
    Ok(EventContext { event_id: *event_id, dependencies, labels, receive })
}

/// A failure on the way is the failure of the whole.
proof fn lemma_load_fails<R: EventRegistry>(reg: &R, s: EventState, ids: Seq<Seq<u8>>, n: int)
    requires
        0 <= n <= ids.len(),
        loaded_dependencies(reg, s, ids, n) is Err,
    ensures
        loaded_dependencies(reg, s, ids, ids.len() as int) == loaded_dependencies(reg, s, ids, n),
    decreases ids.len() - n,
{
    if n < ids.len() {
        lemma_load_fails(reg, s, ids, n + 1);
    }
}

/// Load the context of an event, project it, and write the projection.
fn project_and_write<R: EventRegistry>(
    store: &mut Store,
    reg: &R,
    event_id: &EventId,
    record: &EventRecord,
    receive: Option<ReceiveMetadata>,
) -> (r: Result<(), String>)
    requires
        old(store).wf(),
    ensures
        final(store).wf(),
        match r {
            Ok(()) => projected_store(
                reg,
                old(store)@,
                event_id@,
                record@,
                receive_view(receive),
            ) == Ok::<StoreState, Seq<char>>(final(store)@),
            Err(e) => projected_store(
                reg,
                old(store)@,
                event_id@,
                record@,
                receive_view(receive),
            ) == Err::<StoreState, Seq<char>>(e@),
        },
{
    let context = match load_event_context(store, reg, event_id, record, receive) {
        Ok(context) => context,
        Err(e) => {
            return Err(e);
        },
    };
    let event = EventWithContext { record, context };
    let output = match reg.project_record(store, &event) {
        Ok(output) => output,
        Err(e) => {
            return Err(module_error(e));
        },
    };
    let _ = store.tables.insert_table_rows(&output.rows);
    store.events.insert_labels(&output.labels);
    assert(store@ =~= written(old(store)@, output@));
    Ok(())
}

// ---------------------------------------------------------------------------
// Projecting ready events
// ---------------------------------------------------------------------------

/// What a drain counted.
#[derive(Debug, Clone, Copy, PartialEq, Eq)]
pub struct ApplyReadyReport {
    pub applied_events: usize,
    pub unblocked_events: usize,
}

impl Default for ApplyReadyReport {
    fn default() -> (r: ApplyReadyReport)
        ensures
            r == (ApplyReadyReport { applied_events: 0, unblocked_events: 0 }),
    {
        ApplyReadyReport { applied_events: 0, unblocked_events: 0 }
    }
}

/// The store with the event claimed, and the projection of the claimed event written:
/// then what waited for it is unblocked.
pub open spec fn applied_record<R: EventRegistry>(
    reg: &R,
    s: StoreState,
    id: Seq<u8>,
    record: RecordView,
    receive: Option<ReceiveView>,
) -> Result<(StoreState, int), Seq<char>> {
    let claimed = StoreState {
        events: s.events.with_status(id, EventStatus::Ready, EventStatus::Applied),
        ..s
    };
    match projected_store(reg, claimed, id, record, receive) {
        Err(e) => Err(e),
        Ok(after) => Ok(
            (
                StoreState { events: unblocked(after.events, id), ..after },
                unblocked_count(after.events, id),
            ),
        ),
    }
}

/// The store after one ready event is applied, and how many events that unblocked; or why
/// it cannot be applied.
pub open spec fn applied_event<R: EventRegistry>(reg: &R, s: StoreState, id: Seq<u8>) -> Result<
    (StoreState, int),
    Seq<char>,
> {
    match reg.decoded(s.events.events[id].canonical_bytes) {
        Err(e) => Err(module_error_text(e)),
        Ok(record) => applied_record(reg, s, id, record, None),
    }
}

/// Nothing about which events are stored and blocked changes in a projection.
proof fn lemma_projection_keeps_events<R: EventRegistry>(
    reg: &R,
    s: StoreState,
    id: Seq<u8>,
    record: RecordView,
    receive: Option<ReceiveView>,
)
    ensures
        projected_store(reg, s, id, record, receive) matches Ok(after) ==> after.events.events
            == s.events.events && after.events.edges == s.events.edges,
{
}

/// Claim a ready event by moving it to applied, project the given record, and unblock what
/// waited for it. An event that is not ready is left alone.
fn project_ready_event_record<R: EventRegistry>(
    store: &mut Store,
    reg: &R,
    event_id: &EventId,
    record: &EventRecord,
    receive: Option<ReceiveMetadata>,
) -> (r: Result<ApplyReadyReport, String>)
    requires
        old(store).wf(),
    ensures
        final(store).wf(),
        !old(store)@.events.ready(event_id@) ==> {
            &&& r matches Ok(report) && report == (ApplyReadyReport {
                applied_events: 0,
                unblocked_events: 0,
            })
            &&& final(store)@ == old(store)@
        },
        old(store)@.events.ready(event_id@) ==> match applied_record(
            reg,
            old(store)@,
            event_id@,
            record@,
            receive_view(receive),
        ) {
            Ok((after, n)) => {
                &&& r matches Ok(report) && report.applied_events == 1 && report.unblocked_events
                    == n && n + final(store)@.events.blocked().len()
                    == old(store)@.events.blocked().len()
                &&& final(store)@ == after
            },
            Err(e) => r matches Err(x) && x@ == e,
        },
{
    if !store.events.set_event_status(event_id, EventStatus::Ready, EventStatus::Applied) {
        return Ok(ApplyReadyReport::default());
    }
    let ghost claimed = store@;
    match project_and_write(store, reg, event_id, record, receive) {
        Ok(()) => {},
        Err(e) => {
            return Err(e);
        },
    }
    proof {
        lemma_projection_keeps_events(reg, claimed, event_id@, record@, receive_view(receive));
        assert(store@.events.blocked() =~= old(store)@.events.blocked());
    }
    let n = unblock_dependents(&mut store.events, event_id);
    Ok(ApplyReadyReport { applied_events: 1, unblocked_events: n })
}

/// Claim and project one stored event, when it is ready.
fn project_ready_event<R: EventRegistry>(store: &mut Store, reg: &R, event_id: &EventId) -> (r:
    Result<ApplyReadyReport, String>)
    requires
        old(store).wf(),
    ensures
        final(store).wf(),
        !old(store)@.events.ready(event_id@) ==> {
            &&& r matches Ok(report) && report == (ApplyReadyReport {
                applied_events: 0,
                unblocked_events: 0,
            })
            &&& final(store)@ == old(store)@
        },
        old(store)@.events.ready(event_id@) ==> match applied_event(
            reg,
            old(store)@,
            event_id@,
        ) {
            Ok((after, n)) => {
                &&& r matches Ok(report) && report.applied_events == 1 && report.unblocked_events
                    == n && n + final(store)@.events.blocked().len()
                    == old(store)@.events.blocked().len()
                &&& final(store)@ == after
            },
            Err(e) => r matches Err(x) && x@ == e,
        },
{
    let status = store.events.event_status(event_id);
    let bytes = store.events.event_bytes(event_id);
    match (status, bytes) {
        (Some(EventStatus::Ready), Some(bytes)) => {
            match reg.record_from_bytes(bytes) {
                Ok(record) => project_ready_event_record(store, reg, event_id, &record, None),
                Err(e) => Err(module_error(e)),
            }
        },
        _ => Ok(ApplyReadyReport::default()),
    }
}

// ---------------------------------------------------------------------------
// Admission
// ---------------------------------------------------------------------------

/// What an admission counted.
#[derive(Debug, Clone, PartialEq, Eq)]
pub struct AdmitReport {
    pub event_ids: Vec<EventId>,
    pub inserted_events: usize,
    pub ready_events: usize,
    pub blocked_events: usize,
    pub blocked_edges: usize,
    pub applied_events: usize,
}

/// What an admission counted, without machine limits.
pub struct AdmitTally {
    pub event_ids: Seq<EventId>,
    pub inserted: int,
    pub ready: int,
    pub blocked: int,
    pub edges: int,
    pub applied: int,
}

/// The counts before any admission.
pub open spec fn no_admission() -> AdmitTally {
    AdmitTally { event_ids: Seq::empty(), inserted: 0, ready: 0, blocked: 0, edges: 0, applied: 0 }
}

/// A count as a `usize` holds it.
pub open spec fn saturated(n: int) -> int {
    if n > usize::MAX {
        usize::MAX as int
    } else {
        n
    }
}

impl AdmitReport {
    /// A report holds some counts.
    pub open spec fn holds(&self, t: AdmitTally) -> bool {
        &&& self.event_ids@ == t.event_ids
        &&& self.inserted_events == t.inserted
        &&& self.ready_events == t.ready
        &&& self.blocked_events == t.blocked
        &&& self.blocked_edges == saturated(t.edges)
        &&& self.applied_events == t.applied
    }
}

impl Default for AdmitReport {
    fn default() -> (r: AdmitReport)
        ensures
            r.holds(no_admission()),
    {
        AdmitReport {
            event_ids: Vec::new(),
            inserted_events: 0,
            ready_events: 0,
            blocked_events: 0,
            blocked_edges: 0,
            applied_events: 0,
        }
    }
}

/// The edges of an event that waits for `missing`.
pub open spec fn with_edges(s: EventState, missing: Seq<Seq<u8>>, id: Seq<u8>) -> EventState {
    EventState {
        edges: s.edges.union(
            Set::new(|e: (Seq<u8>, Seq<u8>)| missing.contains(e.0) && e.1 == id),
        ),
        ..s
    }
}

/// How many of the edges of an event that waits for `missing` are new.
pub open spec fn new_edges(s: EventState, missing: Seq<Seq<u8>>, id: Seq<u8>) -> int {
    missing.filter(|d: Seq<u8>| !s.edges.contains((d, id))).len() as int
}

/// Write the edges of a blocked event; gives how many are new.
fn write_blockers(store: &mut Store, event_id: &EventId, missing: &Vec<EventId>) -> (n: usize)
    requires
        old(store).wf(),
        id_views(missing@).no_duplicates(),
    ensures
        final(store).wf(),
        final(store)@ == (StoreState {
            events: with_edges(old(store)@.events, id_views(missing@), event_id@),
            ..old(store)@
        }),
        n == new_edges(old(store)@.events, id_views(missing@), event_id@),
{
    let ghost all = id_views(missing@);
    let ghost s = old(store)@.events;
    let ghost fresh = |d: Seq<u8>| !s.edges.contains((d, event_id@));
    let mut n: usize = 0;
    let mut i: usize = 0;
    proof {
        reveal(Seq::filter);
        assert(all.take(0).filter(fresh) =~= Seq::<Seq<u8>>::empty());
        assert(store@.events =~= with_edges(s, all.take(0), event_id@));
    }
    while i < missing.len()
        invariant
            store.wf(),
            i <= missing@.len(),
            n <= i,
            all == id_views(missing@),
            all.no_duplicates(),
            s == old(store)@.events,
            fresh == (|d: Seq<u8>| !s.edges.contains((d, event_id@))),
            store@.rows == old(store)@.rows,
            store@.events == with_edges(s, all.take(i as int), event_id@),
            n == all.take(i as int).filter(fresh).len(),
        decreases missing.len() - i,
    {
        let dep = missing[i];
        let ghost before = store@.events;
        let added = store.events.insert_blocked_event_missing_dep(&dep, event_id);
        if added {
            n = n + 1;
        }
        proof {
            assert(all[i as int] == dep@);
            reveal(Seq::filter);
            assert(all.take(i + 1).drop_last() =~= all.take(i as int));
            let (a, b) = (all.take(i as int), all.take(i + 1));
            assert(b =~= a.push(dep@));
            if a.contains(dep@) {
                let j = choose|j: int| 0 <= j < a.len() && a[j] == dep@;
                assert(all[j] == all[i as int]);
            }
            assert forall|x: Seq<u8>| #[trigger] b.contains(x) <==> a.contains(x) || x == dep@ by {
                if b.contains(x) {
                    let j = choose|j: int| 0 <= j < b.len() && b[j] == x;
                    if j < a.len() {
                        assert(a[j] == x);
                    }
                }
                if a.contains(x) {
                    let j = choose|j: int| 0 <= j < a.len() && a[j] == x;
                    assert(b[j] == x);
                }
                assert(b[i as int] == dep@);
            }
            assert(store@.events =~= with_edges(s, b, event_id@));
        }
        i = i + 1;
    }
    assert(all.take(i as int) =~= all);
    n
}

/// The store and the counts after one proposal, or why it is refused.
///
/// A transient event is projected and not stored; it may not have dependencies. A durable
/// event is stored once. When it is new it is blocked by the dependencies that are not
/// applied, or else projected at once; an event that came with receive metadata may not
/// be blocked.
pub open spec fn admitted_one<R: EventRegistry>(
    reg: &R,
    s: StoreState,
    p: ProposalView,
    t: AdmitTally,
) -> Result<(StoreState, AdmitTally), Seq<char>> {
    let id = p.id()@;
    let t1 = AdmitTally { event_ids: t.event_ids.push(p.id()), ..t };
    if p.record.scope is Connection {
        if p.record.dependencies.len() > 0 {
            Err(module_error_text("transient events cannot wait on durable dependencies"@))
        } else {
            match projected_store(reg, s, id, p.record, p.receive) {
                Err(e) => Err(e),
                Ok(after) => Ok((after, AdmitTally { applied: t1.applied + 1, ..t1 })),
            }
        }
    } else {
        let missing = missing_ids(s.events, p.record.dependencies);
        if p.receive is Some && missing.len() > 0 {
            Err(module_error_text("durable receive metadata cannot be preserved while blocked"@))
        } else if s.events.events.contains_key(id) {
            Ok((s, t1))
        } else if missing.len() > 0 {
            let stored = s.events.with_event(id, row_of_record(p.record, EventStatus::Blocked));
            Ok(
                (
                    StoreState { events: with_edges(stored, missing, id), ..s },
                    AdmitTally {
                        inserted: t1.inserted + 1,
                        blocked: t1.blocked + 1,
                        edges: t1.edges + new_edges(stored, missing, id),
                        ..t1
                    },
                ),
            )
        } else {
            let stored = StoreState {
                events: s.events.with_event(id, row_of_record(p.record, EventStatus::Ready)),
                ..s
            };
            let applied = if p.receive is Some {
                applied_record(reg, stored, id, p.record, p.receive)
            } else {
                applied_event(reg, stored, id)
            };
            match applied {
                Err(e) => Err(e),
                Ok((after, _)) => Ok(
                    (
                        after,
                        AdmitTally {
                            inserted: t1.inserted + 1,
                            ready: t1.ready + 1,
                            applied: t1.applied + 1,
                            ..t1
                        },
                    ),
                ),
            }
        }
    }
}

/// The store and the counts after the first `n` proposals, or why one of them is refused.
pub open spec fn admitted_upto<R: EventRegistry>(
    reg: &R,
    s: StoreState,
    events: Seq<ProposalView>,
    n: int,
) -> Result<(StoreState, AdmitTally), Seq<char>>
    decreases n,
{
    if n <= 0 {
        Ok((s, no_admission()))
    } else {
        match admitted_upto(reg, s, events, n - 1) {
            Err(e) => Err(e),
            Ok((before, t)) => admitted_one(reg, before, events[n - 1], t),
        }
    }
}

/// The store and the counts after a batch, or why it is refused as a whole.
pub open spec fn admitted_batch<R: EventRegistry>(
    reg: &R,
    s: StoreState,
    events: Seq<ProposalView>,
) -> Result<(StoreState, AdmitTally), Seq<char>> {
    match admitted_upto(reg, s, events, events.len() as int) {
        Err(e) => Err("admit events: "@ + e),
        Ok(done) => Ok(done),
    }
}

proof fn lemma_admit_fails<R: EventRegistry>(
    reg: &R,
    s: StoreState,
    events: Seq<ProposalView>,
    n: int,
)
    requires
        0 <= n <= events.len(),
        admitted_upto(reg, s, events, n) is Err,
    ensures
        admitted_upto(reg, s, events, events.len() as int) == admitted_upto(reg, s, events, n),
    decreases events.len() - n,
{
    if n < events.len() {
        lemma_admit_fails(reg, s, events, n + 1);
    }
}

/// Every count but the edges is at most the number of proposals.
pub proof fn lemma_tally_bounded<R: EventRegistry>(
    reg: &R,
    s: StoreState,
    events: Seq<ProposalView>,
    n: int,
)
    requires
        0 <= n <= events.len(),
    ensures
        admitted_upto(reg, s, events, n) matches Ok((_, t)) ==> {
            &&& t.event_ids.len() == n
            &&& 0 <= t.inserted <= n
            &&& 0 <= t.ready <= n
            &&& 0 <= t.blocked <= n
            &&& 0 <= t.applied <= n
            &&& 0 <= t.edges
        },
    decreases n,
{
    if n > 0 {
        lemma_tally_bounded(reg, s, events, n - 1);
    }
}

/// Process one proposal.
fn process_event<R: EventRegistry>(
    store: &mut Store,
    reg: &R,
    event: &ProposedEvent,
    report: &mut AdmitReport,
    Ghost(t): Ghost<AdmitTally>,
) -> (r: Result<(), String>)
    requires
        old(store).wf(),
        old(report).holds(t),
        0 <= t.edges,
        t.inserted < usize::MAX,
        t.ready < usize::MAX,
        t.blocked < usize::MAX,
        t.applied < usize::MAX,
    ensures
        final(store).wf(),
        match admitted_one(reg, old(store)@, event@, t) {
            Ok((after, t1)) => r is Ok && final(store)@ == after && final(report).holds(t1),
            Err(e) => r matches Err(x) && x@ == e,
        },
{
    let record = event.record();
    let id = event.event_id();
    let receive = event.receive();
    report.event_ids.push(id);
    if !record.scope.is_durable() {
        if record.dependencies.len() > 0 {
            return Err(
                module_error(text("transient events cannot wait on durable dependencies")),
            );
        }
        match project_and_write(store, reg, &id, record, receive) {
            Ok(()) => {},
            Err(e) => {
                return Err(e);
            },
        }
        report.applied_events = report.applied_events + 1;
        return Ok(());
    }
    let missing = missing_dependencies(store, &record.dependencies);
    assert(id_views(missing@).len() == missing@.len());
    if receive.is_some() && missing.len() > 0 {
        return Err(
            module_error(text("durable receive metadata cannot be preserved while blocked")),
        );
    }
    let status = if missing.len() == 0 {
        EventStatus::Ready
    } else {
        EventStatus::Blocked
    };
    let inserted = store.events.insert_event(record, status);
    if !inserted {
        assert(store@ =~= old(store)@);
        return Ok(());
    }
    report.inserted_events = report.inserted_events + 1;
    if missing.len() > 0 {
        report.blocked_events = report.blocked_events + 1;
        proof {
            lemma_missing_distinct(old(store)@.events, record@.dependencies);
        }
        let n = write_blockers(store, &id, &missing);
        report.blocked_edges = report.blocked_edges.saturating_add(n);
        return Ok(());
    }
    report.ready_events = report.ready_events + 1;
    let applied = if receive.is_some() {
        project_ready_event_record(store, reg, &id, record, receive)
    } else {
        project_ready_event(store, reg, &id)
    };
    match applied {
        Ok(apply) => {
            report.applied_events = report.applied_events + apply.applied_events;
            Ok(())
        },
        Err(e) => Err(e),
    }
}

/// No dependency is missing twice.
proof fn lemma_missing_distinct(s: EventState, ids: Seq<EventId>)
    ensures
        missing_ids(s, ids).no_duplicates(),
{
    let all = unique_ids(ids);
    let keep = |d: Seq<u8>| !s.applied(d);
    lemma_unique_listed(ids);
    crate::table::lemma_ascending_distinct(all);
    lemma_filter_distinct(all, keep);
}

/// Any sequence of ids has a listing.
pub proof fn lemma_unique_listed(ids: Seq<EventId>)
    ensures
        is_listing(unique_ids(ids), id_set(ids)),
    decreases ids.len(),
{
    if ids.len() == 0 {
        let s = Seq::<Seq<u8>>::empty();
        assert(is_listing(s, id_set(ids))) by {
            assert forall|k: Seq<u8>| #[trigger] id_set(ids).contains(k) <==> s.contains(k) by {
            }
        }
        lemma_listing_is(s, id_set(ids));
    } else {
        let rest = ids.drop_last();
        let last = ids.last()@;
        lemma_unique_listed(rest);
        let s = unique_ids(rest);
        assert(id_set(ids) =~= id_set(rest).insert(last)) by {
            assert forall|k: Seq<u8>| #[trigger] id_set(ids).contains(k) <==> id_set(rest).insert(
                last,
            ).contains(k) by {
                if id_set(ids).contains(k) {
                    let i = choose|i: int| 0 <= i < ids.len() && (#[trigger] ids[i])@ == k;
                    if i < rest.len() {
                        assert(rest[i]@ == k);
                    }
                }
                if id_set(rest).contains(k) {
                    let i = choose|i: int| 0 <= i < rest.len() && (#[trigger] rest[i])@ == k;
                    assert(ids[i]@ == k);
                }
                assert(ids[ids.len() - 1]@ == last);
            }
        }
        crate::table::lemma_listing_insert(s, id_set(rest), last);
    }
}

proof fn lemma_filter_distinct(s: Seq<Seq<u8>>, keep: spec_fn(Seq<u8>) -> bool)
    requires
        s.no_duplicates(),
    ensures
        s.filter(keep).no_duplicates(),
        forall|k: Seq<u8>| #[trigger] s.filter(keep).contains(k) ==> s.contains(k),
    decreases s.len(),
{
    reveal(Seq::filter);
    if s.len() > 0 {
        let t = s.drop_last();
        assert(t.no_duplicates());
        lemma_filter_distinct(t, keep);
        let f = t.filter(keep);
        assert forall|k: Seq<u8>| #[trigger] s.filter(keep).contains(k) implies s.contains(k) by {
            let g = s.filter(keep);
            let i = choose|i: int| 0 <= i < g.len() && g[i] == k;
            if i < f.len() {
                assert(f[i] == k);
                assert(f.contains(k));
                let j = choose|j: int| 0 <= j < t.len() && t[j] == k;
                assert(s[j] == k);
            } else {
                assert(s[s.len() - 1] == k);
            }
        }
        if keep(s.last()) {
            if f.contains(s.last()) {
                let j = choose|j: int| 0 <= j < t.len() && t[j] == s.last();
                assert(s[j] == s[s.len() - 1]);
            }
            let g = f.push(s.last());
            assert forall|i: int, j: int|
                0 <= i < g.len() && 0 <= j < g.len() && i != j implies g[i] != g[j] by {
                if i < f.len() && j < f.len() {
                    assert(f[i] != f[j]);
                } else if i < f.len() {
                    assert(f.contains(f[i]));
                } else {
                    assert(f.contains(f[j]));
                }
            }
        }
    }
}

/// Admit a batch of proposals in one transaction: all of them, as far as their
/// dependencies allow, or none.
fn run_admission_pipeline<R: EventRegistry>(
    store: &mut Store,
    reg: &R,
    events: &Vec<ProposedEvent>,
) -> (r: Result<AdmitReport, String>)
    requires
        old(store).wf(),
    ensures
        final(store).wf(),
        match admitted_batch(reg, old(store)@, proposal_views(events@)) {
            Ok((after, t)) => r matches Ok(report) && report.holds(t) && final(store)@ == after,
            Err(e) => r matches Err(x) && x@ == e && final(store)@ == old(store)@,
        },
{
    let mut work = store.duplicate();
    let mut report = AdmitReport::default();
    let ghost all = proposal_views(events@);
    let ghost mut t = no_admission();
    let mut i: usize = 0;
    while i < events.len()
        invariant
            work.wf(),
            i <= events@.len(),
            all == proposal_views(events@),
            store@ == old(store)@,
            store.wf(),
            admitted_upto(reg, old(store)@, all, i as int) == Ok::<
                (StoreState, AdmitTally),
                Seq<char>,
            >((work@, t)),
            report.holds(t),
        decreases events.len() - i,
    {
        proof {
            lemma_tally_bounded(reg, old(store)@, all, i as int);
            assert(all[i as int] == events@[i as int]@);
        }
        match process_event(&mut work, reg, &events[i], &mut report, Ghost(t)) {
            Ok(()) => {},
            Err(e) => {
                proof {
                    lemma_admit_fails(reg, old(store)@, all, i + 1);
                }
                return Err(prefixed("admit events: ", e));
            },
        }
        proof {
            t = admitted_upto(reg, old(store)@, all, i + 1)->Ok_0.1;
        }
        i = i + 1;
    }
    *store = work;
    Ok(report)
}

// ---------------------------------------------------------------------------
// Draining ready events
// ---------------------------------------------------------------------------

/// `id` is the first ready event in the order of timestamps and then ids.
pub open spec fn is_next_ready(s: EventState, id: Seq<u8>) -> bool {
    &&& s.ready(id)
    &&& forall|other: Seq<u8>| #[trigger]
        s.ready(other) && other != id ==> lex_lt(
            time_key(s.events[id].timestamp, id),
            time_key(s.events[other].timestamp, other),
        )
}

/// The first ready event in the order of timestamps and then ids.
pub open spec fn next_ready(s: EventState) -> Seq<u8> {
    choose|id: Seq<u8>| is_next_ready(s, id)
}

/// Some event is ready.
pub open spec fn any_ready(s: EventState) -> bool {
    exists|id: Seq<u8>| s.ready(id)
}

/// The store after at most `limit` ready events are applied, one after the other, and what
/// was counted; or why one of them cannot be applied.
pub open spec fn drained<R: EventRegistry>(reg: &R, s: StoreState, limit: nat) -> Result<
    (StoreState, int, int),
    Seq<char>,
>
    decreases limit,
{
    if limit == 0 || !any_ready(s.events) {
        Ok((s, 0, 0))
    } else {
        match applied_event(reg, s, next_ready(s.events)) {
            Err(e) => Err(e),
            Ok((s1, n)) => match drained(reg, s1, (limit - 1) as nat) {
                Err(e) => Err(e),
                Ok((end, applied, unblocked)) => Ok((end, applied + 1, unblocked + n)),
            },
        }
    }
}

/// Find the next ready event.
fn next_ready_event(store: &Store) -> (r: Option<EventId>)
    requires
        store.wf(),
    ensures
        r.is_some() == any_ready(store@.events),
        r matches Some(id) ==> id@ == next_ready(store@.events) && is_next_ready(
            store@.events,
            id@,
        ),
{
    let r = store.events.next_ready_event();
    proof {
        if let Some(id) = r {
            assert(store@.events.ready(id@));
            assert(is_next_ready(store@.events, id@));
            let other = next_ready(store@.events);
            assert(is_next_ready(store@.events, other));
            if other != id@ {
                let a = time_key(store@.events.events[id@].timestamp, id@);
                let b = time_key(store@.events.events[other].timestamp, other);
                lemma_lex_transitive(a, b, a);
                lemma_lex_irreflexive(a);
            }
        }
    }
    r
}

/// Applying an event leaves one event less to apply.
pub proof fn lemma_applied_shrinks<R: EventRegistry>(reg: &R, s: StoreState, id: Seq<u8>)
    requires
        s.events.ready(id),
        s.events.events.dom().finite(),
    ensures
        applied_event(reg, s, id) matches Ok((after, _)) ==> {
            &&& after.events.pending() == s.events.pending().remove(id)
            &&& after.events.pending().len() + 1 == s.events.pending().len()
            &&& after.events.events.dom() == s.events.events.dom()
        },
{
    if let Ok((after, _)) = applied_event(reg, s, id) {
        let record = reg.decoded(s.events.events[id].canonical_bytes)->Ok_0;
        let claimed = StoreState {
            events: s.events.with_status(id, EventStatus::Ready, EventStatus::Applied),
            ..s
        };
        lemma_projection_keeps_events(reg, claimed, id, record, None);
        assert(after.events.events.dom() =~= s.events.events.dom());
        assert(after.events.pending() =~= s.events.pending().remove(id));
        assert(s.events.pending().contains(id));
        assert(s.events.pending().finite());
    }
}

/// Apply at most `limit` ready events in one transaction.
pub(crate) fn drain_ready<R: EventRegistry>(store: &mut Store, reg: &R, limit: usize) -> (r: Result<
    ApplyReadyReport,
    String,
>)
    requires
        old(store).wf(),
    ensures
        final(store).wf(),
        match drained(reg, old(store)@, limit as nat) {
            Ok((after, applied, unblocked)) => {
                &&& r matches Ok(report) && report.applied_events == applied
                    && report.unblocked_events == unblocked
                &&& final(store)@ == after
                &&& applied + final(store)@.events.pending().len()
                    == old(store)@.events.pending().len()
                &&& unblocked + final(store)@.events.blocked().len()
                    == old(store)@.events.blocked().len()
                &&& final(store)@.events.events.dom() == old(store)@.events.events.dom()
            },
            Err(e) => r matches Err(x) && x@ == "drain ready events: "@ + e && final(store)@
                == old(store)@,
        },
{
    let mut work = store.duplicate();
    let mut total = ApplyReadyReport::default();
    proof {
        store.events.lemma_finite();
        lemma_pending_bounded(store@.events);
    }
    while total.applied_events < limit
        invariant
            work.wf(),
            store.wf(),
            store@ == old(store)@,
            total.applied_events <= limit,
            total.applied_events + work@.events.pending().len()
                == old(store)@.events.pending().len(),
            total.unblocked_events + work@.events.blocked().len()
                == old(store)@.events.blocked().len(),
            work@.events.events.dom() == old(store)@.events.events.dom(),
            old(store)@.events.events.dom().finite(),
            old(store)@.events.pending().len() <= usize::MAX,
            old(store)@.events.blocked().len() <= usize::MAX,
            ({
                let whole = drained(reg, old(store)@, limit as nat);
                match drained(reg, work@, (limit - total.applied_events) as nat) {
                    Ok((end, a, u)) => whole == Ok::<(StoreState, int, int), Seq<char>>(
                        (end, a + total.applied_events, u + total.unblocked_events),
                    ),
                    Err(e) => whole == Err::<(StoreState, int, int), Seq<char>>(e),
                }
            }),
        ensures
            total.applied_events == limit || !any_ready(work@.events),
        decreases limit - total.applied_events,
    {
        let id = match next_ready_event(&work) {
            Some(id) => id,
            None => {
                break;
            },
        };
        let ghost before = work@;
        proof {
            lemma_applied_shrinks(reg, work@, id@);
        }
        match project_ready_event(&mut work, reg, &id) {
            Ok(report) => {
                total.applied_events = total.applied_events + report.applied_events;
                total.unblocked_events = total.unblocked_events + report.unblocked_events;
            },
            Err(e) => {
                return Err(prefixed("drain ready events: ", e));
            },
        }
    }
    *store = work;
    Ok(total)
}

pub proof fn lemma_pending_bounded(s: EventState)
    requires
        s.events.dom().finite(),
        s.events.dom().len() <= usize::MAX,
    ensures
        s.pending().finite(),
        s.blocked().finite(),
        s.pending().len() <= usize::MAX,
        s.blocked().len() <= usize::MAX,
{
    vstd::set_lib::lemma_len_subset(s.pending(), s.events.dom());
    vstd::set_lib::lemma_len_subset(s.blocked(), s.events.dom());
}

/// The store after `n` batches, each of which applied some event, and what was counted.
pub open spec fn drained_rounds<R: EventRegistry>(
    reg: &R,
    s: StoreState,
    batch: nat,
    n: nat,
) -> Option<(StoreState, int, int)>
    decreases n,
{
    if n == 0 {
        Some((s, 0, 0))
    } else {
        match drained_rounds(reg, s, batch, (n - 1) as nat) {
            None => None,
            Some((p, a, u)) => match drained(reg, p, batch) {
                Ok((end, x, y)) if x > 0 => Some((end, a + x, u + y)),
                _ => None,
            },
        }
    }
}

/// Draining until idle: `n` batches that applied something, and then one that found nothing
/// to apply or failed.
pub open spec fn idle_after<R: EventRegistry>(
    reg: &R,
    s: StoreState,
    batch: nat,
    n: nat,
    after: StoreState,
    r: Result<ApplyReadyReport, String>,
) -> bool {
    match drained_rounds(reg, s, batch, n) {
        None => false,
        Some((end, a, u)) => {
            &&& after == end
            &&& match drained(reg, end, batch) {
                Ok((_, x, _)) => x == 0 && (r matches Ok(report) && report.applied_events == a
                    && report.unblocked_events == u),
                Err(e) => r matches Err(text) && text@ == "drain ready events: "@ + e,
            }
        },
    }
}

/// How many events a batch holds: a size of 0 counts as 1, so that each batch makes progress.
pub open spec fn at_least_one(batch: nat) -> nat {
    if batch == 0 {
        1
    } else {
        batch
    }
}

/// Draining until idle after some number of batches.
pub open spec fn drained_until_idle<R: EventRegistry>(
    reg: &R,
    s: StoreState,
    batch: nat,
    after: StoreState,
    r: Result<ApplyReadyReport, String>,
) -> bool {
    exists|n: nat| #[trigger] idle_after(reg, s, at_least_one(batch), n, after, r)
}

/// Apply ready events batch by batch until none is left. A batch size of 0 counts as 1. A
/// batch that fails is undone; those before it stay.
fn drain_until_idle<R: EventRegistry>(store: &mut Store, reg: &R, batch_size: usize) -> (r: Result<
    ApplyReadyReport,
    String,
>)
    requires
        old(store).wf(),
    ensures
        final(store).wf(),
        drained_until_idle(reg, old(store)@, batch_size as nat, final(store)@, r),
        r is Ok ==> !any_ready(final(store)@.events),
{
    let size: usize = if batch_size == 0 {
        1
    } else {
        batch_size
    };
    let mut total = ApplyReadyReport::default();
    let ghost mut n: nat = 0;
    proof {
        store.events.lemma_finite();
        lemma_pending_bounded(store@.events);
    }
    loop
        invariant
            store.wf(),
            size as nat == at_least_one(batch_size as nat),
            drained_rounds(reg, old(store)@, size as nat, n) == Some(
                (store@, total.applied_events as int, total.unblocked_events as int),
            ),
            total.applied_events + store@.events.pending().len()
                == old(store)@.events.pending().len(),
            total.unblocked_events + store@.events.blocked().len()
                == old(store)@.events.blocked().len(),
            old(store)@.events.pending().len() <= usize::MAX,
            old(store)@.events.blocked().len() <= usize::MAX,
        decreases store@.events.pending().len(),
    {
        match drain_ready(store, reg, size) {
            Ok(report) => {
                if report.applied_events == 0 {
                    proof {
                        lemma_drained_none(
                            reg,
                            drained_rounds(
                                reg,
                                old(store)@,
                                size as nat,
                                n,
                            ).unwrap().0,
                            size as nat,
                        );
                        assert(idle_after(
                            reg,
                            old(store)@,
                            size as nat,
                            n,
                            store@,
                            Ok(total),
                        ));
                    }
                    return Ok(total);
                }
                total.applied_events = total.applied_events + report.applied_events;
                total.unblocked_events = total.unblocked_events + report.unblocked_events;
                proof {
                    n = n + 1;
                }
            },
            Err(e) => {
                let r = Err(e);
                assert(idle_after(reg, old(store)@, size as nat, n, store@, r));
                return r;
            },
        }
    }
}

/// A drain that applied nothing changed nothing, and left nothing ready unless it was to
/// apply nothing.
proof fn lemma_drained_none<R: EventRegistry>(reg: &R, s: StoreState, limit: nat)
    ensures
        drained(reg, s, limit) matches Ok((end, x, y)) ==> x >= 0,
        drained(reg, s, limit) matches Ok((end, x, y)) ==> x == 0 ==> end == s && y == 0 && (limit
            == 0 || !any_ready(s.events)),
    decreases limit,
{
    if limit > 0 && any_ready(s.events) {
        if let Ok((s1, _)) = applied_event(reg, s, next_ready(s.events)) {
            lemma_drained_none(reg, s1, (limit - 1) as nat);
        }
    }
}

// ---------------------------------------------------------------------------
// Work
// ---------------------------------------------------------------------------

/// One unit of work for the pipeline. `done` says what it does to the store and what it
/// gives back.
pub trait Work<R: EventRegistry>: Sized {
    type Output;

    spec fn done(
        self,
        registry: &R,
        before: StoreState,
        after: StoreState,
        r: Result<Self::Output, String>,
    ) -> bool;

    fn execute(self, store: &mut Store, registry: &R) -> (r: Result<Self::Output, String>)
        requires
            old(store).wf(),
        ensures
            final(store).wf(),
            self.done(registry, old(store)@, final(store)@, r),
    ;
}

/// Run one unit of work.
pub fn run<R, W>(store: &mut Store, registry: &R, work: W) -> (r: Result<W::Output, String>) where
    R: EventRegistry,
    W: Work<R>,

    requires
        old(store).wf(),
    ensures
        final(store).wf(),
        work.done(registry, old(store)@, final(store)@, r),
{
    work.execute(store, registry)
}

/// A batch was admitted, or refused as a whole.
pub open spec fn batch_done<R: EventRegistry>(
    registry: &R,
    before: StoreState,
    after: StoreState,
    events: Seq<ProposalView>,
    r: Result<AdmitReport, String>,
) -> bool {
    match admitted_batch(registry, before, events) {
        Ok((end, t)) => r matches Ok(report) && report.holds(t) && after == end,
        Err(e) => r matches Err(x) && x@ == e && after == before,
    }
}

impl<T, R: EventRegistry> Work<R> for CommandOutput<T> {
    type Output = (T, AdmitReport);

    open spec fn done(
        self,
        registry: &R,
        before: StoreState,
        after: StoreState,
        r: Result<(T, AdmitReport), String>,
    ) -> bool {
        match r {
            Ok((value, report)) => value == self.value && batch_done(
                registry,
                before,
                after,
                proposal_views(self.events@),
                Ok(report),
            ),
            Err(e) => batch_done(registry, before, after, proposal_views(self.events@), Err(e)),
        }
    }

    fn execute(self, store: &mut Store, registry: &R) -> (r: Result<(T, AdmitReport), String>) {
        match run_admission_pipeline(store, registry, &self.events) {
            Ok(report) => Ok((self.value, report)),
            Err(e) => Err(e),
        }
    }
}

/// Admit records.
#[derive(Debug, Clone, PartialEq, Eq)]
pub struct AdmitRecords {
    pub records: Vec<EventRecord>,
}

impl<R: EventRegistry> Work<R> for AdmitRecords {
    type Output = AdmitReport;

    open spec fn done(
        self,
        registry: &R,
        before: StoreState,
        after: StoreState,
        r: Result<AdmitReport, String>,
    ) -> bool {
        batch_done(registry, before, after, record_proposals(self.records@), r)
    }

    fn execute(self, store: &mut Store, registry: &R) -> (r: Result<AdmitReport, String>) {
        let events = propose(self.records);
        run_admission_pipeline(store, registry, &events)
    }
}

/// A record with what is known of how it was received.
#[derive(Debug, Clone, PartialEq, Eq)]
pub struct ReceivedRecord {
    record: EventRecord,
    receive: Option<ReceiveMetadata>,
}

impl View for ReceivedRecord {
    type V = ProposalView;

    closed spec fn view(&self) -> ProposalView {
        ProposalView { record: self.record@, receive: receive_view(self.receive) }
    }
}

impl ReceivedRecord {
    /// A record of which nothing more is known.
    pub fn new(record: EventRecord) -> (r: ReceivedRecord)
        ensures
            r@ == (ProposalView { record: record@, receive: None }),
    {
        ReceivedRecord { record, receive: None }
    }

    /// A record and how it was received.
    pub fn with_receive(record: EventRecord, receive: ReceiveMetadata) -> (r: ReceivedRecord)
        ensures
            r@ == (ProposalView { record: record@, receive: Some(receive@) }),
    {
        ReceivedRecord { record, receive: Some(receive) }
    }

    /// The record.
    pub fn record(&self) -> (r: &EventRecord)
        ensures
            r@ == self@.record,
    {
        &self.record
    }
}

/// What a sequence of received records says.
pub open spec fn received_views(records: Seq<ReceivedRecord>) -> Seq<ProposalView> {
    records.map_values(|r: ReceivedRecord| r@)
}

/// Admit records with how they were received.
#[derive(Debug, Clone, PartialEq, Eq)]
pub struct AdmitReceivedRecords {
    pub records: Vec<ReceivedRecord>,
}

impl<R: EventRegistry> Work<R> for AdmitReceivedRecords {
    type Output = AdmitReport;

    open spec fn done(
        self,
        registry: &R,
        before: StoreState,
        after: StoreState,
        r: Result<AdmitReport, String>,
    ) -> bool {
        batch_done(registry, before, after, received_views(self.records@), r)
    }

    fn execute(self, store: &mut Store, registry: &R) -> (r: Result<AdmitReport, String>) {
        let mut events: Vec<ProposedEvent> = Vec::new();
        let mut i: usize = 0;
        let ghost all = received_views(self.records@);
        assert(proposal_views(events@) =~= all.take(0));
        while i < self.records.len()
            invariant
                i <= self.records@.len(),
                all == received_views(self.records@),
                proposal_views(events@) == all.take(i as int),
            decreases self.records.len() - i,
        {
            let received = &self.records[i];
            let p = ProposedEvent::contextual(
                received.record.duplicate(),
                duplicate_receive(&received.receive),
            );
            let ghost before = events@;
            events.push(p);
            proof {
                assert(all[i as int] == received@);
                assert(proposal_views(events@) =~= proposal_views(before).push(p@));
                assert(all.take(i + 1) =~= all.take(i as int).push(all[i as int]));
            }
            i = i + 1;
        }
        assert(all.take(i as int) =~= all);
        run_admission_pipeline(store, registry, &events)
    }
}

/// Admit the events of a command and apply ready events until none is left.
#[derive(Debug, Clone, PartialEq, Eq)]
pub struct AdmitAndDrain<T> {
    pub output: CommandOutput<T>,
    pub batch_size: usize,
}

/// The result of admitting and draining.
#[derive(Debug, Clone, PartialEq, Eq)]
pub struct AdmitAndDrainReport<T> {
    pub value: T,
    pub admitted: AdmitReport,
    pub drained: ApplyReadyReport,
}

impl<T, R: EventRegistry> Work<R> for AdmitAndDrain<T> {
    type Output = AdmitAndDrainReport<T>;

    open spec fn done(
        self,
        registry: &R,
        before: StoreState,
        after: StoreState,
        r: Result<AdmitAndDrainReport<T>, String>,
    ) -> bool {
        match admitted_batch(registry, before, proposal_views(self.output.events@)) {
            Err(e) => r matches Err(x) && x@ == e && after == before,
            Ok((mid, t)) => match r {
                Ok(report) => {
                    &&& report.value == self.output.value
                    &&& report.admitted.holds(t)
                    &&& drained_until_idle(
                        registry,
                        mid,
                        self.batch_size as nat,
                        after,
                        Ok(report.drained),
                    )
                    &&& !any_ready(after.events)
                },
                Err(e) => drained_until_idle(
                    registry,
                    mid,
                    self.batch_size as nat,
                    after,
                    Err(e),
                ),
            },
        }
    }

    fn execute(self, store: &mut Store, registry: &R) -> (r: Result<
        AdmitAndDrainReport<T>,
        String,
    >) {
        let admitted = match run_admission_pipeline(store, registry, &self.output.events) {
            Ok(admitted) => admitted,
            Err(e) => {
                return Err(e);
            },
        };
        match drain_until_idle(store, registry, self.batch_size) {
            Ok(drained) => Ok(
                AdmitAndDrainReport { value: self.output.value, admitted, drained },
            ),
            Err(e) => Err(e),
        }
    }
}

/// Apply ready events until none is left.
#[derive(Debug, Clone, Copy, PartialEq, Eq)]
pub struct DrainUntilIdle {
    pub batch_size: usize,
}

impl<R: EventRegistry> Work<R> for DrainUntilIdle {
    type Output = ApplyReadyReport;

    open spec fn done(
        self,
        registry: &R,
        before: StoreState,
        after: StoreState,
        r: Result<ApplyReadyReport, String>,
    ) -> bool {
        &&& drained_until_idle(registry, before, self.batch_size as nat, after, r)
        &&& r is Ok ==> !any_ready(after.events)
    }

    fn execute(self, store: &mut Store, registry: &R) -> (r: Result<ApplyReadyReport, String>) {
        drain_until_idle(store, registry, self.batch_size)
    }
}

/// Ready events were applied until none was left, or until one failed.
pub open spec fn ready_applied<R: EventRegistry>(
    registry: &R,
    before: StoreState,
    after: StoreState,
    r: Result<ApplyReadyReport, String>,
) -> bool {
    &&& drained_until_idle(registry, before, DEFAULT_READY_BATCH as nat, after, r)
    &&& r is Ok ==> !any_ready(after.events)
}

/// What work returns that is followed by the projection of ready events: its own failure, or
/// that of the projection, or what came of the work.
pub open spec fn after_ready<T>(
    done: Result<T, String>,
    applied: Result<ApplyReadyReport, String>,
) -> Result<T, String> {
    match done {
        Err(e) => Err(e),
        Ok(output) => match applied {
            Err(e) => Err(e),
            Ok(_) => Ok(output),
        },
    }
}

/// Apply one batch of ready events.
#[derive(Debug, Clone, Copy, PartialEq, Eq)]
pub struct DrainReadyBatch {
    pub batch_size: usize,
}

impl<R: EventRegistry> Work<R> for DrainReadyBatch {
    type Output = ApplyReadyReport;

    open spec fn done(
        self,
        registry: &R,
        before: StoreState,
        after: StoreState,
        r: Result<ApplyReadyReport, String>,
    ) -> bool {
        match drained(registry, before, self.batch_size as nat) {
            Ok((end, applied, unblocked)) => {
                &&& r matches Ok(report) && report.applied_events == applied
                    && report.unblocked_events == unblocked
                &&& after == end
            },
            Err(e) => r matches Err(x) && x@ == "drain ready events: "@ + e && after == before,
        }
    }

    fn execute(self, store: &mut Store, registry: &R) -> (r: Result<ApplyReadyReport, String>) {
        drain_ready(store, registry, self.batch_size)
    }
}

} // verus!
