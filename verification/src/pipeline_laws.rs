//! What the event pipeline keeps: dependency order, idempotent admission, and a drain whose
//! result does not depend on the size of its batches.
use vstd::prelude::*;
use crate::bytes::{
    lemma_be64_ordered, lemma_lex_irreflexive, lemma_lex_total, lemma_lex_transitive, lex_lt,
    EventId,
};
use crate::dependency_unblock::released;
use crate::event_store::{id_views, row_of_record, time_key, EventState};
use crate::events::{
    admitted_batch, admitted_one, admitted_upto, any_ready, applied_event, applied_record,
    at_least_one, drained, drained_rounds, drained_until_idle, id_set, idle_after, is_next_ready,
    lemma_applied_shrinks, lemma_unique_listed, loaded_context, loaded_dependencies, missing_ids,
    next_ready, no_admission, projected_store, unique_ids, with_edges, written, AdmitTally,
    ApplyReadyReport, EventRegistry, OutputView, ProposalView,
};
use crate::store::StoreState;
use crate::table::{is_listing, lemma_ascending_distinct, lemma_listing_exists};
use crate::tables::{law_added_rows_are_there, TableName};
use crate::types::{EventStatus, ReceiveView, RecordView};
use crate::unblocking::{freed, unblocked};

verus! {

// ---------------------------------------------------------------------------
// Admission is idempotent
// ---------------------------------------------------------------------------

/// A proposal of a durable event that came without receive metadata.
pub open spec fn is_plain_durable(p: ProposalView) -> bool {
    !(p.record.scope is Connection) && p.receive is None
}

/// A durable event that is stored already changes nothing when it is proposed again: it is
/// not projected a second time and writes no blockers.
pub proof fn law_duplicate_admission_changes_nothing<R: EventRegistry>(
    reg: &R,
    s: StoreState,
    p: ProposalView,
    t: AdmitTally,
)
    requires
        is_plain_durable(p),
        s.events.events.contains_key(p.id()@),
    ensures
        admitted_one(reg, s, p, t) == Ok::<(StoreState, AdmitTally), Seq<char>>(
            (s, AdmitTally { event_ids: t.event_ids.push(p.id()), ..t }),
        ),
{
}

/// Events stay stored while others are admitted, and a durable event that is admitted is
/// stored.
proof fn lemma_admission_keeps<R: EventRegistry>(
    reg: &R,
    s: StoreState,
    p: ProposalView,
    t: AdmitTally,
)
    ensures
        admitted_one(reg, s, p, t) matches Ok((after, _)) ==> {
            &&& s.events.events.dom().subset_of(after.events.events.dom())
            &&& !(p.record.scope is Connection) ==> after.events.events.contains_key(p.id()@)
        },
{
    if let Ok((after, _)) = admitted_one(reg, s, p, t) {
        assert forall|id: Seq<u8>| s.events.events.dom().contains(id) implies #[trigger]
            after.events.events.dom().contains(id) by {}
    }
}

proof fn lemma_batch_keeps<R: EventRegistry>(
    reg: &R,
    s: StoreState,
    events: Seq<ProposalView>,
    n: int,
)
    requires
        0 <= n <= events.len(),
        forall|i: int| 0 <= i < events.len() ==> is_plain_durable(#[trigger] events[i]),
    ensures
        admitted_upto(reg, s, events, n) matches Ok((after, t)) ==> {
            &&& forall|i: int|
                0 <= i < n ==> after.events.events.contains_key((#[trigger] events[i]).id()@)
            &&& t.event_ids.len() == n
            &&& forall|i: int| 0 <= i < n ==> t.event_ids[i] == (#[trigger] events[i]).id()
        },
    decreases n,
{
    if n > 0 {
        lemma_batch_keeps(reg, s, events, n - 1);
        if let Ok((before, t)) = admitted_upto(reg, s, events, n - 1) {
            lemma_admission_keeps(reg, before, events[n - 1], t);
        }
    }
}

proof fn lemma_batch_again<R: EventRegistry>(
    reg: &R,
    s: StoreState,
    events: Seq<ProposalView>,
    n: int,
)
    requires
        0 <= n <= events.len(),
        forall|i: int| 0 <= i < events.len() ==> is_plain_durable(#[trigger] events[i]),
        forall|i: int|
            0 <= i < events.len() ==> s.events.events.contains_key((#[trigger] events[i]).id()@),
    ensures
        admitted_upto(reg, s, events, n) == Ok::<(StoreState, AdmitTally), Seq<char>>(
            (
                s,
                AdmitTally {
                    event_ids: events.take(n).map_values(|p: ProposalView| p.id()),
                    ..no_admission()
                },
            ),
        ),
    decreases n,
{
    if n > 0 {
        lemma_batch_again(reg, s, events, n - 1);
        assert(events.take(n).map_values(|p: ProposalView| p.id()) =~= events.take(
            n - 1,
        ).map_values(|p: ProposalView| p.id()).push(events[n - 1].id()));
        assert(is_plain_durable(events[n - 1]));
    } else {
        assert(events.take(n).map_values(|p: ProposalView| p.id()) =~= Seq::empty());
    }
}

/// A batch of durable events that was admitted changes nothing when it is admitted again
/// right away: nothing is inserted, blocked or applied.
pub proof fn law_admitting_a_batch_again_changes_nothing<R: EventRegistry>(
    reg: &R,
    s: StoreState,
    events: Seq<ProposalView>,
)
    requires
        forall|i: int| 0 <= i < events.len() ==> is_plain_durable(#[trigger] events[i]),
        admitted_batch(reg, s, events) is Ok,
    ensures
        ({
            let (after, t) = admitted_batch(reg, s, events)->Ok_0;
            admitted_batch(reg, after, events) == Ok::<(StoreState, AdmitTally), Seq<char>>(
                (after, AdmitTally { event_ids: t.event_ids, ..no_admission() }),
            )
        }),
{
    let n = events.len() as int;
    let (after, t) = admitted_batch(reg, s, events)->Ok_0;
    lemma_batch_keeps(reg, s, events, n);
    lemma_batch_again(reg, after, events, n);
    assert(events.take(n) =~= events);
    assert(events.map_values(|p: ProposalView| p.id()) =~= t.event_ids);
}

// ---------------------------------------------------------------------------
// Dependency order
// ---------------------------------------------------------------------------

/// The dependencies of a stored event.
pub open spec fn dependencies_of<R: EventRegistry>(reg: &R, s: EventState, id: Seq<u8>) -> Set<
    Seq<u8>,
> {
    id_set(reg.decoded(s.events[id].canonical_bytes)->Ok_0.dependencies)
}

/// A stored event can be decoded. What is ready or applied has only applied dependencies; a
/// blocked event waits for exactly those of its dependencies that are not applied, and there
/// is one.
pub open spec fn event_in_order<R: EventRegistry>(reg: &R, s: EventState, id: Seq<u8>) -> bool {
    &&& reg.decoded(s.events[id].canonical_bytes) is Ok
    &&& !(s.events[id].status is Blocked) ==> forall|d: Seq<u8>| #[trigger]
        dependencies_of(reg, s, id).contains(d) ==> s.applied(d)
    &&& s.events[id].status is Blocked ==> {
        &&& forall|d: Seq<u8>| #[trigger]
            dependencies_of(reg, s, id).contains(d) ==> s.edges.contains((d, id)) == !s.applied(d)
        &&& exists|d: Seq<u8>| #[trigger] s.edges.contains((d, id))
    }
}

/// Every stored event is in order, and only blocked events wait, for dependencies of theirs.
pub open spec fn in_dependency_order<R: EventRegistry>(reg: &R, s: EventState) -> bool {
    &&& forall|id: Seq<u8>| #[trigger] s.events.contains_key(id) ==> event_in_order(reg, s, id)
    &&& forall|d: Seq<u8>, b: Seq<u8>| #[trigger]
        s.edges.contains((d, b)) ==> s.events.contains_key(b) && s.events[b].status is Blocked
            && dependencies_of(reg, s, b).contains(d)
}

/// A proposal whose bytes decode to the record that it carries.
pub open spec fn is_faithful<R: EventRegistry>(reg: &R, p: ProposalView) -> bool {
    reg.decoded(p.record.canonical_bytes) == Ok::<RecordView, Seq<char>>(p.record)
}

proof fn lemma_unblocked_in_order<R: EventRegistry>(reg: &R, s: EventState, id: Seq<u8>)
    requires
        s.ready(id),
        in_dependency_order(reg, s),
    ensures
        in_dependency_order(
            reg,
            unblocked(s.with_status(id, EventStatus::Ready, EventStatus::Applied), id),
        ),
{
    let claimed = s.with_status(id, EventStatus::Ready, EventStatus::Applied);
    let after = unblocked(claimed, id);
    assert(event_in_order(reg, s, id));
    assert(after.applied(id)) by {
        assert(claimed.events[id].status is Applied);
    }
    assert forall|x: Seq<u8>| x != id implies after.applied(x) == #[trigger] s.applied(x) by {}
    assert forall|x: Seq<u8>| #[trigger] after.events.contains_key(x) implies event_in_order(
        reg,
        after,
        x,
    ) by {
        assert(s.events.contains_key(x));
        assert(event_in_order(reg, s, x));
        assert(after.events[x].canonical_bytes == s.events[x].canonical_bytes);
        assert(dependencies_of(reg, after, x) == dependencies_of(reg, s, x));
        if s.events[x].status is Blocked {
            assert(x != id);
            if freed(claimed, id, x) {
                assert forall|d: Seq<u8>| #[trigger]
                    dependencies_of(reg, after, x).contains(d) implies after.applied(d) by {
                    assert(dependencies_of(reg, s, x).contains(d));
                    assert(s.edges.contains((d, x)) == !s.applied(d));
                    assert(claimed.edges.contains((d, x)) ==> d == id);
                    if d != id {
                        assert(s.applied(d));
                    }
                }
            } else {
                assert(after.events[x].status is Blocked);
                assert forall|d: Seq<u8>| #[trigger]
                    dependencies_of(reg, after, x).contains(d) implies after.edges.contains((d, x))
                    == !after.applied(d) by {
                    assert(dependencies_of(reg, s, x).contains(d));
                    assert(s.edges.contains((d, x)) == !s.applied(d));
                }
                let d = choose|d: Seq<u8>| #[trigger] s.edges.contains((d, x));
                if s.edges.contains((id, x)) {
                    let other = choose|other: Seq<u8>| #[trigger]
                        claimed.edges.contains((other, x)) && other != id;
                    assert(after.edges.contains((other, x)));
                } else {
                    assert(after.edges.contains((d, x)));
                }
            }
        } else {
            assert forall|d: Seq<u8>| #[trigger]
                dependencies_of(reg, after, x).contains(d) implies after.applied(d) by {
                assert(dependencies_of(reg, s, x).contains(d));
                assert(s.applied(d));
            }
        }
    }
    assert forall|d: Seq<u8>, b: Seq<u8>| #[trigger] after.edges.contains((d, b)) implies after.events.contains_key(
    b) && after.events[b].status is Blocked && dependencies_of(reg, after, b).contains(d) by {
        assert(s.edges.contains((d, b)));
        assert(d != id);
        assert(s.events.contains_key(b) && s.events[b].status is Blocked);
        assert(b != id);
        assert(claimed.edges.contains((d, b)));
        assert(!freed(claimed, id, b));
    }
}

proof fn lemma_applied_record_in_order<R: EventRegistry>(
    reg: &R,
    s: StoreState,
    id: Seq<u8>,
    record: RecordView,
    receive: Option<ReceiveView>,
)
    requires
        s.events.ready(id),
        in_dependency_order(reg, s.events),
    ensures
        applied_record(reg, s, id, record, receive) matches Ok((after, _)) ==> in_dependency_order(
            reg,
            after.events,
        ),
{
    if let Ok((after, _)) = applied_record(reg, s, id, record, receive) {
        let claimed = s.events.with_status(id, EventStatus::Ready, EventStatus::Applied);
        lemma_unblocked_in_order(reg, s.events, id);
        let plain = unblocked(claimed, id);
        assert forall|x: Seq<u8>| freed(claimed, id, x) == freed(
            (projected_store(
                reg,
                (StoreState { events: claimed, ..s }),
                id,
                record,
                receive,
            )->Ok_0).events,
            id,
            x,
        ) by {}
        assert(after.events.events =~= plain.events);
        assert(after.events.edges =~= plain.edges);
        lemma_order_ignores_labels(reg, plain, after.events);
    }
}

proof fn lemma_order_ignores_labels<R: EventRegistry>(reg: &R, a: EventState, b: EventState)
    requires
        a.events == b.events,
        a.edges == b.edges,
        in_dependency_order(reg, a),
    ensures
        in_dependency_order(reg, b),
{
    assert forall|id: Seq<u8>| #[trigger] b.events.contains_key(id) implies event_in_order(
        reg,
        b,
        id,
    ) by {
        assert(event_in_order(reg, a, id));
        assert forall|d: Seq<u8>| b.applied(d) == #[trigger] a.applied(d) by {}
        assert(dependencies_of(reg, a, id) == dependencies_of(reg, b, id));
    }
    assert forall|d: Seq<u8>, x: Seq<u8>| #[trigger] b.edges.contains((d, x)) implies b.events.contains_key(
    x) && b.events[x].status is Blocked && dependencies_of(reg, b, x).contains(d) by {
        assert(a.edges.contains((d, x)));
    }
}

proof fn lemma_new_event_in_order<R: EventRegistry>(reg: &R, s: EventState, p: ProposalView)
    requires
        is_faithful(reg, p),
        !s.events.contains_key(p.id()@),
        in_dependency_order(reg, s),
    ensures
        ({
            let id = p.id()@;
            let missing = missing_ids(s, p.record.dependencies);
            if missing.len() > 0 {
                in_dependency_order(
                    reg,
                    with_edges(
                        s.with_event(id, row_of_record(p.record, EventStatus::Blocked)),
                        missing,
                        id,
                    ),
                )
            } else {
                in_dependency_order(
                    reg,
                    s.with_event(id, row_of_record(p.record, EventStatus::Ready)),
                )
            }
        }),
{
    let id = p.id()@;
    let missing = missing_ids(s, p.record.dependencies);
    lemma_missing_ids(s, p.record.dependencies);
    let status = if missing.len() > 0 {
        EventStatus::Blocked
    } else {
        EventStatus::Ready
    };
    let stored = s.with_event(id, row_of_record(p.record, status));
    let after = if missing.len() > 0 {
        with_edges(stored, missing, id)
    } else {
        stored
    };
    assert forall|x: Seq<u8>| after.applied(x) == #[trigger] s.applied(x) by {}
    assert forall|x: Seq<u8>| #[trigger] after.events.contains_key(x) implies event_in_order(
        reg,
        after,
        x,
    ) by {
        if x == id {
            assert(dependencies_of(reg, after, x) == id_set(p.record.dependencies));
            assert forall|d: Seq<u8>| #[trigger] dependencies_of(reg, after, x).contains(d) implies (
            missing.contains(d) == !after.applied(d)) by {
                assert(after.applied(d) == s.applied(d));
            }
            assert forall|d: Seq<u8>| !#[trigger] s.edges.contains((d, id)) by {}
            if missing.len() > 0 {
                assert(missing.contains(missing[0]));
                assert(after.edges.contains((missing[0], id)));
            } else {
                assert forall|d: Seq<u8>| #[trigger]
                    dependencies_of(reg, after, x).contains(d) implies after.applied(d) by {
                    assert(!missing.contains(d));
                }
            }
        } else {
            assert(s.events.contains_key(x));
            assert(event_in_order(reg, s, x));
            assert(dependencies_of(reg, after, x) == dependencies_of(reg, s, x));
            assert forall|d: Seq<u8>| after.edges.contains((d, x)) == #[trigger] s.edges.contains(
                (d, x),
            ) by {}
            assert forall|d: Seq<u8>| #[trigger]
                dependencies_of(reg, after, x).contains(d) implies after.applied(d) == s.applied(
                d,
            ) by {}
        }
    }
    assert forall|d: Seq<u8>, b: Seq<u8>| #[trigger] after.edges.contains((d, b)) implies after.events.contains_key(
    b) && after.events[b].status is Blocked && dependencies_of(reg, after, b).contains(d) by {
        if b == id {
            assert(!s.edges.contains((d, id)));
            assert(missing.contains(d));
        } else {
            assert(s.edges.contains((d, b)));
        }
    }
}

/// The missing dependencies are those that are not applied.
proof fn lemma_missing_ids(s: EventState, ids: Seq<EventId>)
    ensures
        forall|d: Seq<u8>| #[trigger]
            missing_ids(s, ids).contains(d) <==> id_set(ids).contains(d) && !s.applied(d),
{
    lemma_unique_listed(ids);
    let unique = unique_ids(ids);
    let keep = |d: Seq<u8>| !s.applied(d);
    assert forall|d: Seq<u8>| #[trigger] missing_ids(s, ids).contains(d) <==> id_set(ids).contains(
        d,
    ) && !s.applied(d) by {
        if missing_ids(s, ids).contains(d) {
            unique.lemma_filter_contains_rev(keep, d);
            unique.lemma_filter_pred(keep, missing_ids(s, ids).index_of(d));
        } else if unique.contains(d) && keep(d) {
            unique.lemma_filter_contains(keep, unique.index_of(d));
        }
    }
}

/// Admitting a proposal keeps the dependency order.
pub proof fn law_admission_keeps_dependency_order<R: EventRegistry>(
    reg: &R,
    s: StoreState,
    p: ProposalView,
    t: AdmitTally,
)
    requires
        is_faithful(reg, p),
        in_dependency_order(reg, s.events),
    ensures
        admitted_one(reg, s, p, t) matches Ok((after, _)) ==> in_dependency_order(
            reg,
            after.events,
        ),
{
    if let Ok((after, _)) = admitted_one(reg, s, p, t) {
        let id = p.id()@;
        if p.record.scope is Connection {
            lemma_order_ignores_labels(reg, s.events, after.events);
        } else if !s.events.events.contains_key(id) {
            lemma_new_event_in_order(reg, s.events, p);
            if missing_ids(s.events, p.record.dependencies).len() == 0 {
                let stored = StoreState {
                    events: s.events.with_event(id, row_of_record(p.record, EventStatus::Ready)),
                    ..s
                };
                lemma_applied_record_in_order(reg, stored, id, p.record, p.receive);
                lemma_applied_record_in_order(reg, stored, id, p.record, None);
            }
        }
    }
}

proof fn lemma_batch_in_order<R: EventRegistry>(
    reg: &R,
    s: StoreState,
    events: Seq<ProposalView>,
    n: int,
)
    requires
        0 <= n <= events.len(),
        forall|i: int| 0 <= i < events.len() ==> is_faithful(reg, #[trigger] events[i]),
        in_dependency_order(reg, s.events),
    ensures
        admitted_upto(reg, s, events, n) matches Ok((after, _)) ==> in_dependency_order(
            reg,
            after.events,
        ),
    decreases n,
{
    if n > 0 {
        lemma_batch_in_order(reg, s, events, n - 1);
        if let Ok((before, t)) = admitted_upto(reg, s, events, n - 1) {
            assert(is_faithful(reg, events[n - 1]));
            law_admission_keeps_dependency_order(reg, before, events[n - 1], t);
        }
    }
}

/// Admitting a batch keeps the dependency order.
pub proof fn law_batch_keeps_dependency_order<R: EventRegistry>(
    reg: &R,
    s: StoreState,
    events: Seq<ProposalView>,
)
    requires
        forall|i: int| 0 <= i < events.len() ==> is_faithful(reg, #[trigger] events[i]),
        in_dependency_order(reg, s.events),
    ensures
        admitted_batch(reg, s, events) matches Ok((after, _)) ==> in_dependency_order(
            reg,
            after.events,
        ),
{
    lemma_batch_in_order(reg, s, events, events.len() as int);
}

/// Among finitely many ready events one comes first.
proof fn lemma_first_of(s: EventState, ids: Set<Seq<u8>>)
    requires
        ids.finite(),
        ids.len() > 0,
    ensures
        exists|id: Seq<u8>| #[trigger] comes_first(s, ids, id),
    decreases ids.len(),
{
    let a = ids.choose();
    let rest = ids.remove(a);
    let key_a = time_key(s.events[a].timestamp, a);
    if rest.len() == 0 {
        assert(rest =~= Set::empty());
        assert forall|other: Seq<u8>| #[trigger] ids.contains(other) && other != a implies false by {
            assert(rest.contains(other));
        }
        assert(comes_first(s, ids, a));
    } else {
        lemma_first_of(s, rest);
        let b = choose|b: Seq<u8>| #[trigger] comes_first(s, rest, b);
        let key_b = time_key(s.events[b].timestamp, b);
        if key_a == key_b {
            assert(key_a.skip(8) =~= a);
            assert(key_b.skip(8) =~= b);
        }
        lemma_lex_total(key_a, key_b);
        if lex_lt(key_b, key_a) {
            assert forall|other: Seq<u8>| #[trigger] ids.contains(other) && other != b implies lex_lt(
                key_b,
                time_key(s.events[other].timestamp, other),
            ) by {
                if other != a {
                    assert(rest.contains(other));
                }
            }
            assert(comes_first(s, ids, b));
        } else {
            assert forall|other: Seq<u8>| #[trigger] ids.contains(other) && other != a implies lex_lt(
                key_a,
                time_key(s.events[other].timestamp, other),
            ) by {
                assert(rest.contains(other));
                if other != b {
                    lemma_lex_transitive(
                        key_a,
                        key_b,
                        time_key(s.events[other].timestamp, other),
                    );
                }
            }
            assert(comes_first(s, ids, a));
        }
    }
}

/// `id` comes before the others of `ids` in the order of timestamps and then ids.
spec fn comes_first(s: EventState, ids: Set<Seq<u8>>, id: Seq<u8>) -> bool {
    &&& ids.contains(id)
    &&& forall|other: Seq<u8>| #[trigger]
        ids.contains(other) && other != id ==> lex_lt(
            time_key(s.events[id].timestamp, id),
            time_key(s.events[other].timestamp, other),
        )
}

/// When some event is ready, one of them is next.
proof fn lemma_next_ready(s: EventState)
    requires
        s.events.dom().finite(),
        any_ready(s),
    ensures
        is_next_ready(s, next_ready(s)),
{
    let ids = s.events.dom().filter(|id: Seq<u8>| s.ready(id));
    let some = choose|id: Seq<u8>| s.ready(id);
    assert(ids.contains(some));
    assert(ids.len() > 0) by {
        if ids.len() == 0 {
            assert(ids =~= Set::empty());
        }
    }
    lemma_first_of(s, ids);
    let id = choose|id: Seq<u8>| #[trigger] comes_first(s, ids, id);
    assert forall|other: Seq<u8>| #[trigger] s.ready(other) && other != id implies lex_lt(
        time_key(s.events[id].timestamp, id),
        time_key(s.events[other].timestamp, other),
    ) by {
        assert(ids.contains(other));
    }
    assert(is_next_ready(s, id));
}

/// Draining ready events keeps the dependency order.
pub proof fn law_drain_keeps_dependency_order<R: EventRegistry>(
    reg: &R,
    s: StoreState,
    limit: nat,
)
    requires
        s.events.events.dom().finite(),
        in_dependency_order(reg, s.events),
    ensures
        drained(reg, s, limit) matches Ok((after, _, _)) ==> in_dependency_order(reg, after.events),
    decreases limit,
{
    if limit > 0 && any_ready(s.events) {
        let id = next_ready(s.events);
        lemma_next_ready(s.events);
        if let Ok((s1, _)) = applied_event(reg, s, id) {
            let record = reg.decoded(s.events.events[id].canonical_bytes)->Ok_0;
            lemma_applied_record_in_order(reg, s, id, record, None);
            lemma_applied_shrinks(reg, s, id);
            law_drain_keeps_dependency_order(reg, s1, (limit - 1) as nat);
        }
    }
}

/// A ready event always has its context: every dependency is applied, and its record can be
/// decoded.
pub proof fn law_ready_event_has_its_context<R: EventRegistry>(
    reg: &R,
    s: EventState,
    id: Seq<u8>,
    receive: Option<ReceiveView>,
)
    requires
        in_dependency_order(reg, s),
        s.ready(id),
    ensures
        ({
            let record = reg.decoded(s.events[id].canonical_bytes)->Ok_0;
            &&& loaded_context(reg, s, id, record, receive) is Ok
            &&& forall|i: int|
                0 <= i < record.dependencies.len() ==> s.applied(
                    (#[trigger] record.dependencies[i])@,
                )
        }),
{
    let record = reg.decoded(s.events[id].canonical_bytes)->Ok_0;
    assert(event_in_order(reg, s, id));
    lemma_unique_listed(record.dependencies);
    assert forall|i: int| 0 <= i < record.dependencies.len() implies s.applied(
        (#[trigger] record.dependencies[i])@,
    ) by {
        assert(dependencies_of(reg, s, id).contains(record.dependencies[i]@));
    }
    let ids = unique_ids(record.dependencies);
    lemma_dependencies_load(reg, s, id, ids.len() as int);
}

proof fn lemma_dependencies_load<R: EventRegistry>(reg: &R, s: EventState, id: Seq<u8>, n: int)
    requires
        in_dependency_order(reg, s),
        s.ready(id),
        0 <= n <= unique_ids(
            reg.decoded(s.events[id].canonical_bytes)->Ok_0.dependencies,
        ).len(),
    ensures
        loaded_dependencies(
            reg,
            s,
            unique_ids(reg.decoded(s.events[id].canonical_bytes)->Ok_0.dependencies),
            n,
        ) is Ok,
    decreases n,
{
    if n > 0 {
        lemma_dependencies_load(reg, s, id, n - 1);
        let record = reg.decoded(s.events[id].canonical_bytes)->Ok_0;
        let ids = unique_ids(record.dependencies);
        lemma_unique_listed(record.dependencies);
        let d = ids[n - 1];
        assert(ids.contains(d));
        assert(event_in_order(reg, s, id));
        assert(dependencies_of(reg, s, id).contains(d));
        assert(s.applied(d));
        assert(event_in_order(reg, s, d));
    }
}

// ---------------------------------------------------------------------------
// The size of a batch does not matter
// ---------------------------------------------------------------------------

/// Two drains one after the other are one drain.
proof fn lemma_drain_twice<R: EventRegistry>(reg: &R, s: StoreState, a: nat, b: nat)
    ensures
        drained(reg, s, a) matches Ok((mid, x, y)) ==> {
            &&& 0 <= x <= a
            &&& drained(reg, s, x as nat) == drained(reg, s, a)
            &&& x < a ==> !any_ready(mid.events)
            &&& drained(reg, mid, b) matches Ok((end, p, q)) ==> drained(reg, s, a + b) == Ok::<
                (StoreState, int, int),
                Seq<char>,
            >((end, x + p, y + q))
        },
    decreases a,
{
    if a > 0 && any_ready(s.events) {
        if let Ok((s1, n)) = applied_event(reg, s, next_ready(s.events)) {
            lemma_drain_twice(reg, s1, (a - 1) as nat, b);
            assert((a + b - 1) as nat == ((a - 1) as nat) + b);
            if let Ok((mid, x, y)) = drained(reg, s1, (a - 1) as nat) {
                assert(((x + 1) as nat - 1) as nat == x as nat);
            }
        }
    } else if a > 0 {
        assert(drained(reg, s, b) == Ok::<(StoreState, int, int), Seq<char>>((s, 0, 0)));
        assert(drained(reg, s, a + b) == Ok::<(StoreState, int, int), Seq<char>>((s, 0, 0)));
    }
}

/// Rounds of batches are one drain of as many events as they applied.
proof fn lemma_rounds_are_one_drain<R: EventRegistry>(reg: &R, s: StoreState, batch: nat, n: nat)
    ensures
        drained_rounds(reg, s, batch, n) matches Some((end, a, u)) ==> a >= 0 && drained(
            reg,
            s,
            a as nat,
        ) == Ok::<(StoreState, int, int), Seq<char>>((end, a, u)),
    decreases n,
{
    if n > 0 {
        lemma_rounds_are_one_drain(reg, s, batch, (n - 1) as nat);
        if let Some((p, a, u)) = drained_rounds(reg, s, batch, (n - 1) as nat) {
            lemma_drain_twice(reg, p, batch, 0);
            if let Ok((end, x, y)) = drained(reg, p, batch) {
                lemma_drain_twice(reg, s, a as nat, x as nat);
                if x > 0 {
                    assert((a as nat) + (x as nat) == (a + x) as nat);
                }
            }
        }
    }
}

/// Draining until idle gives the same store and the same counts whatever the size of its
/// batches: the size is a matter of scheduling only.
pub proof fn law_batch_size_does_not_matter<R: EventRegistry>(
    reg: &R,
    s: StoreState,
    batch1: nat,
    after1: StoreState,
    report1: ApplyReadyReport,
    batch2: nat,
    after2: StoreState,
    report2: ApplyReadyReport,
)
    requires
        drained_until_idle(reg, s, batch1, after1, Ok(report1)),
        drained_until_idle(reg, s, batch2, after2, Ok(report2)),
    ensures
        after1 == after2,
        report1.applied_events == report2.applied_events,
        report1.unblocked_events == report2.unblocked_events,
{
    let n1 = choose|n: nat| #[trigger] idle_after(reg, s, at_least_one(batch1), n, after1, Ok(report1));
    let n2 = choose|n: nat| #[trigger] idle_after(reg, s, at_least_one(batch2), n, after2, Ok(report2));
    lemma_rounds_are_one_drain(reg, s, at_least_one(batch1), n1);
    lemma_rounds_are_one_drain(reg, s, at_least_one(batch2), n2);
    lemma_drain_twice(reg, after1, at_least_one(batch1), 0);
    lemma_drain_twice(reg, after2, at_least_one(batch2), 0);
    let a1 = report1.applied_events as nat;
    let a2 = report2.applied_events as nat;
    if a1 <= a2 {
        lemma_drain_twice(reg, s, a1, (a2 - a1) as nat);
        assert(a1 + (a2 - a1) as nat == a2);
    } else {
        lemma_drain_twice(reg, s, a2, (a1 - a2) as nat);
        assert(a2 + (a1 - a2) as nat == a1);
    }
}

/// An earlier batch of a drain applied something too.
proof fn lemma_rounds_before<R: EventRegistry>(reg: &R, s: StoreState, batch: nat, m: nat, n: nat)
    requires
        m < n,
        drained_rounds(reg, s, batch, n) is Some,
    ensures
        drained_rounds(reg, s, batch, m) matches Some((p, _, _)) && (drained(reg, p, batch) matches Ok(
            (_, x, _),
        ) && x > 0),
    decreases n,
{
    if m + 1 < n {
        lemma_rounds_before(reg, s, batch, m, (n - 1) as nat);
    }
}

/// Draining until idle has one outcome: the store that it leaves, whether it fails, and what it
/// counts or says are settled by the store that it starts from.
pub proof fn law_drain_has_one_outcome<R: EventRegistry>(
    reg: &R,
    s: StoreState,
    batch: nat,
    after1: StoreState,
    r1: Result<ApplyReadyReport, String>,
    after2: StoreState,
    r2: Result<ApplyReadyReport, String>,
)
    requires
        drained_until_idle(reg, s, batch, after1, r1),
        drained_until_idle(reg, s, batch, after2, r2),
    ensures
        after1 == after2,
        match (r1, r2) {
            (Ok(a), Ok(b)) => a.applied_events == b.applied_events && a.unblocked_events
                == b.unblocked_events,
            (Err(a), Err(b)) => a@ == b@,
            _ => false,
        },
{
    let n1 = choose|n: nat| #[trigger] idle_after(reg, s, at_least_one(batch), n, after1, r1);
    let n2 = choose|n: nat| #[trigger] idle_after(reg, s, at_least_one(batch), n, after2, r2);
    if n1 < n2 {
        lemma_rounds_before(reg, s, at_least_one(batch), n1, n2);
    } else if n2 < n1 {
        lemma_rounds_before(reg, s, at_least_one(batch), n2, n1);
    }
}

/// The dependencies of an event are a set: neither their order nor a repetition makes a
/// difference, to which they are or to which of them are missing.
pub proof fn law_dependencies_are_a_set(s: EventState, a: Seq<EventId>, b: Seq<EventId>)
    requires
        forall|id: EventId| a.contains(id) <==> b.contains(id),
    ensures
        unique_ids(a) == unique_ids(b),
        missing_ids(s, a) == missing_ids(s, b),
{
    assert(id_set(a) =~= id_set(b)) by {
        assert forall|k: Seq<u8>| #[trigger] id_set(a).contains(k) <==> id_set(b).contains(k) by {
            if id_set(a).contains(k) {
                let i = choose|i: int| 0 <= i < a.len() && (#[trigger] a[i])@ == k;
                assert(a.contains(a[i]));
                let j = choose|j: int| 0 <= j < b.len() && b[j] == a[i];
                assert(b[j]@ == k);
            }
            if id_set(b).contains(k) {
                let i = choose|i: int| 0 <= i < b.len() && (#[trigger] b[i])@ == k;
                assert(b.contains(b[i]));
                let j = choose|j: int| 0 <= j < a.len() && a[j] == b[i];
                assert(a[j]@ == k);
            }
        }
    }
}

/// Making dependencies unique leaves each of them once, in ascending order, and does nothing
/// to dependencies that are unique already.
pub proof fn law_unique_dependencies_stay(ids: Seq<EventId>, unique: Seq<EventId>)
    requires
        id_views(unique) == unique_ids(ids),
    ensures
        is_listing(id_views(unique), id_set(ids)),
        id_views(unique).no_duplicates(),
        unique_ids(unique) == id_views(unique),
{
    lemma_unique_listed(ids);
    lemma_ascending_distinct(id_views(unique));
    let views = id_views(unique);
    assert(id_set(unique) =~= id_set(ids)) by {
        assert forall|k: Seq<u8>| #[trigger] id_set(unique).contains(k) <==> id_set(ids).contains(
            k,
        ) by {
            if id_set(unique).contains(k) {
                let i = choose|i: int| 0 <= i < unique.len() && (#[trigger] unique[i])@ == k;
                assert(views[i] == k);
                assert(views.contains(k));
            }
            if id_set(ids).contains(k) {
                assert(views.contains(k));
                let i = choose|i: int| 0 <= i < views.len() && views[i] == k;
                assert(unique[i]@ == k);
            }
        }
    }
}

// ---------------------------------------------------------------------------
// What becomes of an event
// ---------------------------------------------------------------------------

/// A new durable event is stored as it is. It is applied at once exactly where every dependency
/// is applied; else it is blocked, and waits for exactly the dependencies that are not.
pub proof fn law_new_event_waits_for_what_is_missing<R: EventRegistry>(
    reg: &R,
    s: StoreState,
    p: ProposalView,
    t: AdmitTally,
)
    requires
        is_plain_durable(p),
        is_faithful(reg, p),
        !s.events.events.contains_key(p.id()@),
        forall|d: Seq<u8>| !(#[trigger] s.events.edges.contains((d, p.id()@))),
        admitted_one(reg, s, p, t) is Ok,
    ensures
        ({
            let (after, u) = admitted_one(reg, s, p, t)->Ok_0;
            let id = p.id()@;
            let row = after.events.events[id];
            let free = forall|i: int|
                0 <= i < p.record.dependencies.len() ==> s.events.applied(
                    (#[trigger] p.record.dependencies[i])@,
                );
            &&& after.events.events.contains_key(id)
            &&& row.canonical_bytes == p.record.canonical_bytes
            &&& row.timestamp == p.record.timestamp
            &&& row.workspace_id == p.record.workspace_id
            &&& row.scope == p.record.scope
            &&& free ==> row.status is Applied && u.applied == t.applied + 1 && u.blocked
                == t.blocked
            &&& !free ==> row.status is Blocked && u.blocked == t.blocked + 1 && u.applied
                == t.applied && forall|d: Seq<u8>| #[trigger]
                after.events.edges.contains((d, id)) <==> !s.events.applied(d) && exists|i: int|
                    0 <= i < p.record.dependencies.len() && (#[trigger] p.record.dependencies[i])@
                        == d
            &&& u.inserted == t.inserted + 1
            &&& u.event_ids == t.event_ids.push(p.id())
        }),
{
    let (after, _) = admitted_one(reg, s, p, t)->Ok_0;
    let id = p.id()@;
    let deps = p.record.dependencies;
    let missing = missing_ids(s.events, deps);
    lemma_missing_ids(s.events, deps);
    if missing.len() == 0 {
        assert forall|i: int| 0 <= i < deps.len() implies s.events.applied(
            (#[trigger] deps[i])@,
        ) by {
            assert(id_set(deps).contains(deps[i]@));
            assert(!missing.contains(deps[i]@));
        }
        let stored = StoreState {
            events: s.events.with_event(id, row_of_record(p.record, EventStatus::Ready)),
            ..s
        };
        let claimed = stored.events.with_status(id, EventStatus::Ready, EventStatus::Applied);
        assert(claimed.events[id].status is Applied);
        assert(!freed(claimed, id, id));
    } else {
        assert(missing.contains(missing[0]));
        let i = choose|i: int| 0 <= i < deps.len() && (#[trigger] deps[i])@ == missing[0];
        assert(!s.events.applied(deps[i]@));
        assert forall|d: Seq<u8>| #[trigger] after.events.edges.contains((d, id)) <==> !s.events.applied(
            d,
        ) && exists|i: int| 0 <= i < deps.len() && (#[trigger] deps[i])@ == d by {
            assert(missing.contains(d) <==> id_set(deps).contains(d) && !s.events.applied(d));
            assert(!s.events.edges.contains((d, id)));
        }
    }
}

/// Applying an event releases exactly what waited for it alone: such an event becomes ready, one
/// that waits for something else too stays blocked, and nothing waits for the applied event any
/// more. Nothing else changes.
pub proof fn law_release_is_exact(s: EventState, dep: Seq<u8>, x: Seq<u8>)
    requires
        s.events.contains_key(x),
    ensures
        ({
            let after = unblocked(s, dep);
            let waits = s.edges.contains((dep, x)) && s.events[x].status is Blocked;
            let other = exists|d: Seq<u8>| d != dep && #[trigger] s.edges.contains((d, x));
            &&& after.events.contains_key(x)
            &&& waits && !other ==> after.events[x].status is Ready
            &&& !waits || other ==> after.events[x] == s.events[x]
            &&& after.events[x].canonical_bytes == s.events[x].canonical_bytes
            &&& after.events[x].timestamp == s.events[x].timestamp
            &&& after.labels == s.labels
            &&& forall|d: Seq<u8>| #[trigger]
                after.edges.contains((d, x)) <==> s.edges.contains((d, x)) && d != dep
        }),
{
}

proof fn lemma_released(s: EventState, queued: Seq<(Seq<u8>, EventId)>, n: int, x: Seq<u8>)
    requires
        0 <= n <= queued.len(),
        s.events.contains_key(x),
        s.events[x].status is Blocked,
        exists|d: Seq<u8>| #[trigger] s.edges.contains((d, x)),
    ensures
        ({
            let after = released(s, queued, n);
            let all = forall|d: Seq<u8>| #[trigger]
                s.edges.contains((d, x)) ==> exists|i: int|
                    0 <= i < n && (#[trigger] queued[i]).1@ == d;
            &&& after.events.contains_key(x)
            &&& all ==> after.events[x].status is Ready
            &&& !all ==> after.events[x] == s.events[x]
            &&& forall|d: Seq<u8>| #[trigger]
                after.edges.contains((d, x)) <==> s.edges.contains((d, x)) && !exists|i: int|
                    0 <= i < n && (#[trigger] queued[i]).1@ == d
        }),
    decreases n,
{
    if n > 0 {
        lemma_released(s, queued, n - 1, x);
        let p = released(s, queued, n - 1);
        let dep = queued[n - 1].1@;
        let after = released(s, queued, n);
        law_release_is_exact(p, dep, x);
        assert forall|d: Seq<u8>| #[trigger] after.edges.contains((d, x)) <==> s.edges.contains(
            (d, x),
        ) && !exists|i: int| 0 <= i < n && (#[trigger] queued[i]).1@ == d by {
            assert(after.edges.contains((d, x)) <==> p.edges.contains((d, x)) && d != dep);
            if d == dep {
                assert(queued[n - 1].1@ == d);
            }
        }
        let all = forall|d: Seq<u8>| #[trigger]
            s.edges.contains((d, x)) ==> exists|i: int|
                0 <= i < n && (#[trigger] queued[i]).1@ == d;
        let before = forall|d: Seq<u8>| #[trigger]
            s.edges.contains((d, x)) ==> exists|i: int|
                0 <= i < n - 1 && (#[trigger] queued[i]).1@ == d;
        if before {
            assert forall|d: Seq<u8>| #[trigger] s.edges.contains((d, x)) implies exists|i: int|
                0 <= i < n && (#[trigger] queued[i]).1@ == d by {
                let i = choose|i: int| 0 <= i < n - 1 && (#[trigger] queued[i]).1@ == d;
                assert(queued[i].1@ == d);
            }
        } else {
            let d0 = choose|d: Seq<u8>| #[trigger]
                s.edges.contains((d, x)) && !exists|i: int|
                    0 <= i < n - 1 && (#[trigger] queued[i]).1@ == d;
            assert(p.edges.contains((d0, x)));
            if all {
                assert forall|d: Seq<u8>| #[trigger] p.edges.contains((d, x)) implies d == dep by {
                    assert(s.edges.contains((d, x)));
                    let i = choose|i: int| 0 <= i < n && (#[trigger] queued[i]).1@ == d;
                    assert(i == n - 1);
                }
            } else {
                let d1 = choose|d: Seq<u8>| #[trigger]
                    s.edges.contains((d, x)) && !exists|i: int|
                        0 <= i < n && (#[trigger] queued[i]).1@ == d;
                assert(d1 != dep) by {
                    if d1 == dep {
                        assert(queued[n - 1].1@ == d1);
                    }
                }
                assert(!exists|i: int| 0 <= i < n - 1 && (#[trigger] queued[i]).1@ == d1) by {
                    if exists|i: int| 0 <= i < n - 1 && (#[trigger] queued[i]).1@ == d1 {
                        let i = choose|i: int| 0 <= i < n - 1 && (#[trigger] queued[i]).1@ == d1;
                        assert(queued[i].1@ == d1);
                    }
                }
                assert(p.edges.contains((d1, x)));
            }
        }
    }
}

/// A drain of applied events releases every blocked event whose missing dependencies are all
/// among them, and no other; nothing waits for one of them any more.
pub proof fn law_release_leaves_out_nobody(
    s: EventState,
    queued: Seq<(Seq<u8>, EventId)>,
    x: Seq<u8>,
)
    requires
        s.events.contains_key(x),
        s.events[x].status is Blocked,
        exists|d: Seq<u8>| #[trigger] s.edges.contains((d, x)),
    ensures
        ({
            let after = released(s, queued, queued.len() as int);
            let all = forall|d: Seq<u8>| #[trigger]
                s.edges.contains((d, x)) ==> exists|i: int|
                    0 <= i < queued.len() && (#[trigger] queued[i]).1@ == d;
            &&& all ==> after.events[x].status is Ready
            &&& !all ==> after.events[x].status is Blocked
            &&& forall|i: int|
                0 <= i < queued.len() ==> !after.edges.contains(((#[trigger] queued[i]).1@, x))
        }),
{
    lemma_released(s, queued, queued.len() as int, x);
}

/// A drain applies as many events as its limit allows and leaves one ready only where it applied
/// that many. Each applied event is one less to apply.
pub proof fn law_drain_applies_what_it_can<R: EventRegistry>(reg: &R, s: StoreState, limit: nat)
    requires
        s.events.events.dom().finite(),
        drained(reg, s, limit) is Ok,
    ensures
        ({
            let (after, applied, _) = drained(reg, s, limit)->Ok_0;
            &&& 0 <= applied <= limit
            &&& applied < limit ==> !any_ready(after.events)
            &&& after.events.events.dom() == s.events.events.dom()
            &&& s.events.pending().len() == after.events.pending().len() + applied
        }),
    decreases limit,
{
    if limit > 0 && any_ready(s.events) {
        let id = next_ready(s.events);
        lemma_next_ready(s.events);
        lemma_applied_shrinks(reg, s, id);
        let (s1, _) = applied_event(reg, s, id)->Ok_0;
        law_drain_applies_what_it_can(reg, s1, (limit - 1) as nat);
    }
}

/// The next ready event is one of the oldest.
pub proof fn law_oldest_ready_event_is_next(s: EventState, other: Seq<u8>)
    requires
        s.events.dom().finite(),
        s.ready(other),
    ensures
        s.ready(next_ready(s)),
        s.events[next_ready(s)].timestamp <= s.events[other].timestamp,
{
    lemma_next_ready(s);
    let id = next_ready(s);
    let (a, b) = (s.events[id].timestamp, s.events[other].timestamp);
    if b < a {
        lemma_be64_ordered(b, a, other, id);
        lemma_lex_transitive(time_key(a, id), time_key(b, other), time_key(a, id));
        lemma_lex_irreflexive(time_key(a, id));
    }
}

/// A batch is admitted as a whole: every proposal was admitted at its turn, and every durable
/// event of it is stored.
pub proof fn law_batch_leaves_out_no_event<R: EventRegistry>(
    reg: &R,
    s: StoreState,
    events: Seq<ProposalView>,
    i: int,
)
    requires
        0 <= i < events.len(),
        admitted_batch(reg, s, events) is Ok,
    ensures
        ({
            let (after, t) = admitted_batch(reg, s, events)->Ok_0;
            &&& !(events[i].record.scope is Connection) ==> after.events.events.contains_key(
                events[i].id()@,
            )
            &&& t.event_ids.len() == events.len()
            &&& t.event_ids[i] == events[i].id()
        }),
{
    lemma_batch_stored(reg, s, events, events.len() as int, i);
}

proof fn lemma_batch_stored<R: EventRegistry>(
    reg: &R,
    s: StoreState,
    events: Seq<ProposalView>,
    n: int,
    i: int,
)
    requires
        0 <= i < n <= events.len(),
        admitted_upto(reg, s, events, n) is Ok,
    ensures
        ({
            let (after, t) = admitted_upto(reg, s, events, n)->Ok_0;
            &&& !(events[i].record.scope is Connection) ==> after.events.events.contains_key(
                events[i].id()@,
            )
            &&& t.event_ids.len() == n
            &&& t.event_ids[i] == events[i].id()
        }),
    decreases n,
{
    let (before, t) = admitted_upto(reg, s, events, n - 1)->Ok_0;
    lemma_admission_keeps(reg, before, events[n - 1], t);
    if i < n - 1 {
        lemma_batch_stored(reg, s, events, n - 1, i);
    } else if n > 1 {
        lemma_batch_stored(reg, s, events, n - 1, 0);
    }
}

/// The context of an event is complete: the event module sees each dependency that the event names,
/// with what its stored bytes say, and nothing else; it sees each label of the event, and what is
/// known of how it came.
pub proof fn law_context_is_complete<R: EventRegistry>(
    reg: &R,
    s: EventState,
    id: Seq<u8>,
    record: RecordView,
    receive: Option<ReceiveView>,
)
    requires
        s.labels_of(id).finite(),
    ensures
        loaded_context(reg, s, id, record, receive) matches Ok(context) ==> {
            &&& context.event_id == id
            &&& context.receive == receive
            &&& forall|l: Seq<u8>| #[trigger]
                context.labels.contains(l) <==> s.labels.contains((id, l))
            &&& forall|d: EventId| #[trigger]
                record.dependencies.contains(d) ==> exists|i: int|
                    0 <= i < context.dependencies.len() && (#[trigger] context.dependencies[i]).0
                        == d@ && Ok::<RecordView, Seq<char>>(context.dependencies[i].1)
                        == reg.decoded(s.events[d@].canonical_bytes)
            &&& forall|i: int|
                0 <= i < context.dependencies.len() ==> id_set(record.dependencies).contains(
                    (#[trigger] context.dependencies[i]).0,
                )
        },
{
    let ids = unique_ids(record.dependencies);
    lemma_unique_listed(record.dependencies);
    lemma_loaded(reg, s, ids, ids.len() as int);
    lemma_listing_exists(s.labels_of(id));
    if let Ok(context) = loaded_context(reg, s, id, record, receive) {
        assert forall|l: Seq<u8>| #[trigger] context.labels.contains(l) <==> s.labels.contains(
            (id, l),
        ) by {
            assert(s.labels_of(id).contains(l) <==> s.labels.contains((id, l)));
        }
        assert forall|d: EventId| #[trigger] record.dependencies.contains(d) implies exists|i: int|
            0 <= i < context.dependencies.len() && (#[trigger] context.dependencies[i]).0 == d@
                && Ok::<RecordView, Seq<char>>(context.dependencies[i].1) == reg.decoded(
                s.events[d@].canonical_bytes,
            ) by {
            let j = choose|j: int| 0 <= j < record.dependencies.len() && record.dependencies[j]
                == d;
            assert(id_set(record.dependencies).contains(d@));
            assert(ids.contains(d@));
            let i = choose|i: int| 0 <= i < ids.len() && ids[i] == d@;
            assert(context.dependencies[i].0 == d@);
        }
        assert forall|i: int| 0 <= i < context.dependencies.len() implies id_set(
            record.dependencies,
        ).contains((#[trigger] context.dependencies[i]).0) by {
            assert(ids.contains(ids[i]));
        }
    }
}

proof fn lemma_loaded<R: EventRegistry>(reg: &R, s: EventState, ids: Seq<Seq<u8>>, n: int)
    requires
        0 <= n <= ids.len(),
    ensures
        loaded_dependencies(reg, s, ids, n) matches Ok(found) ==> {
            &&& found.len() == n
            &&& forall|i: int|
                0 <= i < n ==> (#[trigger] found[i]).0 == ids[i] && Ok::<RecordView, Seq<char>>(
                    found[i].1,
                ) == reg.decoded(s.events[ids[i]].canonical_bytes)
        },
    decreases n,
{
    if n > 0 {
        lemma_loaded(reg, s, ids, n - 1);
    }
}

/// A projection is written as a whole: every row and every label that the event module asked for is
/// there afterwards, and rows that were there stay as they were.
pub proof fn law_projection_is_written(s: StoreState, output: OutputView)
    ensures
        forall|i: int|
            0 <= i < output.rows.len() ==> written(s, output).rows.contains_key(
                ((#[trigger] output.rows[i]).table, output.rows[i].key),
            ),
        forall|k: (TableName, Seq<u8>)| #[trigger]
            s.rows.contains_key(k) ==> written(s, output).rows.contains_key(k) && written(
                s,
                output,
            ).rows[k] == s.rows[k],
        forall|k: (TableName, Seq<u8>)| #[trigger]
            written(s, output).rows.contains_key(k) && !s.rows.contains_key(k) ==> exists|i: int|
                0 <= i < output.rows.len() && (#[trigger] output.rows[i]).table == k.0
                    && output.rows[i].key == k.1 && output.rows[i].value == written(
                    s,
                    output,
                ).rows[k],
        forall|l: (Seq<u8>, Seq<u8>)| #[trigger]
            written(s, output).events.labels.contains(l) <==> s.events.labels.contains(l)
                || output.labels.contains(l),
        written(s, output).events.events == s.events.events,
        written(s, output).events.edges == s.events.edges,
{
    law_added_rows_are_there(s.rows, output.rows, output.rows.len() as int);
}

/// What an admission refuses whatever else holds: an event of a connection that waits for anything,
/// and an event with receive metadata while one of its dependencies is not applied.
pub proof fn law_admission_refuses_what_cannot_wait<R: EventRegistry>(
    reg: &R,
    s: StoreState,
    p: ProposalView,
    t: AdmitTally,
)
    ensures
        p.record.scope is Connection && p.record.dependencies.len() > 0 ==> admitted_one(
            reg,
            s,
            p,
            t,
        ) is Err,
        !(p.record.scope is Connection) && p.receive is Some && (exists|d: EventId| #[trigger]
            p.record.dependencies.contains(d) && !s.events.applied(d@)) ==> admitted_one(
            reg,
            s,
            p,
            t,
        ) is Err,
{
    let deps = p.record.dependencies;
    if exists|d: EventId| #[trigger] deps.contains(d) && !s.events.applied(d@) {
        let d = choose|d: EventId| #[trigger] deps.contains(d) && !s.events.applied(d@);
        let j = choose|j: int| 0 <= j < deps.len() && deps[j] == d;
        lemma_unique_listed(deps);
        assert(id_set(deps).contains(d@));
        let ids = unique_ids(deps);
        assert(ids.contains(d@));
        let i = choose|i: int| 0 <= i < ids.len() && ids[i] == d@;
        let keep = |x: Seq<u8>| !s.events.applied(x);
        ids.lemma_filter_contains(keep, i);
    }
}

} // verus!
