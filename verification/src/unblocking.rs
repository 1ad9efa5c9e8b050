//! Releasing what waits for an event once that event is applied.
use vstd::prelude::*;
use crate::bytes::EventId;
use crate::event_store::{id_views, EventRow, EventState, EventStore};
use crate::table::{is_listing, listing};
use crate::types::EventStatus;

verus! {

/// A blocked event that waits for nothing once the edges to `dep` are gone.
pub open spec fn freed(s: EventState, dep: Seq<u8>, id: Seq<u8>) -> bool {
    &&& s.edges.contains((dep, id))
    &&& forall|d: Seq<u8>| #[trigger] s.edges.contains((d, id)) ==> d == dep
    &&& s.events.contains_key(id)
    &&& s.events[id].status is Blocked
}

/// The store after an event is applied: nothing waits for it any more, and what waited for
/// nothing else is ready.
pub open spec fn unblocked(s: EventState, dep: Seq<u8>) -> EventState {
    EventState {
        events: Map::new(
            |id: Seq<u8>| s.events.contains_key(id),
            |id: Seq<u8>|
                if freed(s, dep, id) {
                    EventRow { status: EventStatus::Ready, ..s.events[id] }
                } else {
                    s.events[id]
                },
        ),
        edges: s.edges.filter(|e: (Seq<u8>, Seq<u8>)| e.0 != dep),
        ..s
    }
}

/// How many events become ready when one is applied.
pub open spec fn unblocked_count(s: EventState, dep: Seq<u8>) -> int {
    listing(s.waiting_for(dep)).filter(|id: Seq<u8>| freed(s, dep, id)).len() as int
}

/// Take the applied event out of the way of those that wait for it; gives how many became
/// ready.
pub fn unblock_dependents(events: &mut EventStore, applied_event_id: &EventId) -> (n: usize)
    requires
        old(events).wf(),
    ensures
        final(events).wf(),
        final(events)@ == unblocked(old(events)@, applied_event_id@),
        n == unblocked_count(old(events)@, applied_event_id@),
        n + final(events)@.blocked().len() == old(events)@.blocked().len(),
{
    let dependents = events.blocked_events_by_missing_dep(applied_event_id);
    events.delete_blocked_events_by_missing_dep(applied_event_id);
    let ghost s = old(events)@;
    let ghost dep = applied_event_id@;
    let ghost all = id_views(dependents@);
    let ghost free = |id: Seq<u8>| freed(s, dep, id);
    let mut n: usize = 0;
    let mut i: usize = 0;
    proof {
        reveal(Seq::filter);
        assert(all.take(0).filter(free) =~= Seq::<Seq<u8>>::empty());
        assert(events@.blocked() =~= s.blocked());
        crate::table::lemma_ascending_distinct(all);
    }
    while i < dependents.len()
        invariant
            events.wf(),
            i <= dependents@.len(),
            n <= i,
            s == old(events)@,
            dep == applied_event_id@,
            all == id_views(dependents@),
            all.no_duplicates(),
            is_listing(all, s.waiting_for(dep)),
            free == (|id: Seq<u8>| freed(s, dep, id)),
            n == all.take(i as int).filter(free).len(),
            n + events@.blocked().len() == s.blocked().len(),
            events@.labels == s.labels,
            events@.edges == s.edges.filter(|e: (Seq<u8>, Seq<u8>)| e.0 != dep),
            events@.events.dom() == s.events.dom(),
            forall|id: Seq<u8>| #[trigger]
                s.events.contains_key(id) ==> events@.events[id] == (if freed(s, dep, id)
                    && all.take(i as int).contains(id) {
                    EventRow { status: EventStatus::Ready, ..s.events[id] }
                } else {
                    s.events[id]
                }),
        decreases dependents.len() - i,
    {
        let id = dependents[i];
        let ghost before = events@;
        proof {
            assert(all[i as int] == id@);
            assert(all.contains(id@));
            assert(s.waiting_for(dep).contains(id@));
            reveal(Seq::filter);
            assert(all.take(i + 1).drop_last() =~= all.take(i as int));
            if all.take(i as int).contains(id@) {
                let j = choose|j: int|
                    0 <= j < all.take(i as int).len() && all.take(i as int)[j] == id@;
                assert(all[j] == all[i as int]);
            }
        }
        if !events.blocked_event_has_missing_deps(&id) {
            proof {
                assert forall|d: Seq<u8>| #[trigger] s.edges.contains((d, id@)) implies d == dep by {
                    if d != dep {
                        assert(before.edges.contains((d, id@)));
                    }
                }
            }
            let moved = events.set_event_status(
                &id,
                EventStatus::Blocked,
                EventStatus::Ready,
            );
            if moved {
                n = n + 1;
                proof {
                    events.lemma_finite();
                    assert(before.blocked().contains(id@));
                    assert(events@.blocked() =~= before.blocked().remove(id@));
                    assert(before.events.dom().finite()) by {
                        assert(before.events.dom() =~= events@.events.dom());
                    }
                    assert(before.blocked().finite());
                }
            }
            assert(moved == freed(s, dep, id@));
        } else {
            proof {
                let d = choose|d: Seq<u8>| before.edges.contains((d, id@));
                assert(s.edges.contains((d, id@)) && d != dep);
            }
            assert(!freed(s, dep, id@));
        }
        proof {
            let (a, b) = (all.take(i as int), all.take(i + 1));
            assert(b =~= a.push(id@));
            assert forall|x: Seq<u8>| #[trigger] b.contains(x) <==> a.contains(x) || x == id@ by {
                if b.contains(x) {
                    let j = choose|j: int| 0 <= j < b.len() && b[j] == x;
                    if j < a.len() {
                        assert(a[j] == x);
                    }
                }
                if a.contains(x) {
                    let j = choose|j: int| 0 <= j < a.len() && a[j] == x;
                    assert(b[j] == x);
                }
                assert(b[i as int] == id@);
            }
            assert(events@.events.dom() =~= s.events.dom());
            assert forall|x: Seq<u8>| #[trigger] s.events.contains_key(x) implies events@.events[x]
                == (if freed(s, dep, x) && b.contains(x) {
                EventRow { status: EventStatus::Ready, ..s.events[x] }
            } else {
                s.events[x]
            }) by {
                assert(before.events[x] == (if freed(s, dep, x) && a.contains(x) {
                    EventRow { status: EventStatus::Ready, ..s.events[x] }
                } else {
                    s.events[x]
                }));
            }
        }
        i = i + 1;
    }
    proof {
        assert(all.take(i as int) =~= all);
        let want = unblocked(s, dep);
        assert forall|x: Seq<u8>| #[trigger] s.events.contains_key(x) implies events@.events[x]
            == want.events[x] by {
            if freed(s, dep, x) {
                assert(s.waiting_for(dep).contains(x));
                assert(all.contains(x));
            }
        }
        assert(events@.events =~= want.events);
        assert(events@ =~= want);
        assert(all == listing(s.waiting_for(dep)));
    }
    n
}

} // verus!
