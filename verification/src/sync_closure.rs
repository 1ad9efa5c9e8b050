//! What some events depend on, as far as the sync index knows it.
//!
//! The closure of some events is found by following dependencies. An event outside the index
//! ends the walk at that place. The dependencies of an event are read off its stored bytes once
//! and kept with the index.
use vstd::prelude::*;
use crate::bytes::{id_bytes, EventId};
use crate::event_store::{EventRow, Mark};
use crate::events::EventRegistry;
use crate::store::Store;
use crate::sync_index::{in_time_order, lemma_filter_next, IndexState, SyncIndex, TimestampRange};
use crate::table::Table;
use crate::text::text;
use crate::types::{copy_ids, EventIndexEntry};

verus! {

/// The dependencies of an event: those looked up before, or else those that its stored bytes
/// name. An event outside the index has none.
pub open spec fn known_deps<R: EventRegistry>(
    reg: &R,
    index: IndexState,
    events: Map<Seq<u8>, EventRow>,
    id: Seq<u8>,
) -> Result<Seq<EventId>, Seq<char>> {
    if index.deps.contains_key(id) {
        Ok(index.deps[id])
    } else if !index.entries.contains_key(id) {
        Ok(Seq::empty())
    } else if !events.contains_key(id) {
        Err("sync index referenced missing dependency event"@)
    } else {
        match reg.decoded(events[id].canonical_bytes) {
            Ok(record) => Ok(record.dependencies),
            Err(e) => Err(e),
        }
    }
}

/// An event is known to depend on another.
pub open spec fn depends_on<R: EventRegistry>(
    reg: &R,
    index: IndexState,
    events: Map<Seq<u8>, EventRow>,
    id: Seq<u8>,
    dep: Seq<u8>,
) -> bool {
    known_deps(reg, index, events, id) matches Ok(deps) && exists|i: int|
        0 <= i < deps.len() && (#[trigger] deps[i])@ == dep
}

/// A walk from a root along dependencies.
pub open spec fn is_walk<R: EventRegistry>(
    reg: &R,
    index: IndexState,
    events: Map<Seq<u8>, EventRow>,
    roots: Set<Seq<u8>>,
    path: Seq<Seq<u8>>,
) -> bool {
    &&& path.len() > 0
    &&& roots.contains(path[0])
    &&& forall|i: int|
        0 < i < path.len() ==> depends_on(reg, index, events, path[i - 1], #[trigger] path[i])
}

/// An event is a root or is reached from one along dependencies.
pub open spec fn is_reached<R: EventRegistry>(
    reg: &R,
    index: IndexState,
    events: Map<Seq<u8>, EventRow>,
    roots: Set<Seq<u8>>,
    id: Seq<u8>,
) -> bool {
    exists|path: Seq<Seq<u8>>| #[trigger]
        is_walk(reg, index, events, roots, path) && path.last() == id
}

/// The ids of some events.
pub open spec fn ids_of(entries: Seq<EventIndexEntry>) -> Set<Seq<u8>> {
    entries.map_values(|e: EventIndexEntry| e.event_id@).to_set()
}

/// The indexed events that some events depend on, without these themselves, in the order of
/// timestamps and then ids.
pub open spec fn closure_of<R: EventRegistry>(
    reg: &R,
    index: IndexState,
    events: Map<Seq<u8>, EventRow>,
    roots: Set<Seq<u8>>,
) -> Seq<EventIndexEntry> {
    in_time_order(index.entries).filter(
        |e: EventIndexEntry|
            !roots.contains(e.event_id@) && is_reached(reg, index, events, roots, e.event_id@),
    )
}

proof fn lemma_root_is_reached<R: EventRegistry>(
    reg: &R,
    index: IndexState,
    events: Map<Seq<u8>, EventRow>,
    roots: Set<Seq<u8>>,
    id: Seq<u8>,
)
    requires
        roots.contains(id),
    ensures
        is_reached(reg, index, events, roots, id),
{
    assert(is_walk(reg, index, events, roots, seq![id]));
    assert(seq![id].last() == id);
}

proof fn lemma_step_is_reached<R: EventRegistry>(
    reg: &R,
    index: IndexState,
    events: Map<Seq<u8>, EventRow>,
    roots: Set<Seq<u8>>,
    id: Seq<u8>,
    dep: Seq<u8>,
)
    requires
        is_reached(reg, index, events, roots, id),
        depends_on(reg, index, events, id, dep),
    ensures
        is_reached(reg, index, events, roots, dep),
{
    let path = choose|path: Seq<Seq<u8>>| #[trigger]
        is_walk(reg, index, events, roots, path) && path.last() == id;
    let longer = path.push(dep);
    assert forall|i: int| 0 < i < longer.len() implies depends_on(
        reg,
        index,
        events,
        longer[i - 1],
        #[trigger] longer[i],
    ) by {
        if i < path.len() {
            assert(longer[i] == path[i] && longer[i - 1] == path[i - 1]);
        }
    }
    assert(is_walk(reg, index, events, roots, longer));
    assert(longer.last() == dep);
}

/// A set that holds the roots and all dependencies of its members holds all that is reached.
proof fn lemma_closed_set_holds_all<R: EventRegistry>(
    reg: &R,
    index: IndexState,
    events: Map<Seq<u8>, EventRow>,
    roots: Set<Seq<u8>>,
    seen: Set<Seq<u8>>,
    path: Seq<Seq<u8>>,
)
    requires
        is_walk(reg, index, events, roots, path),
        roots.subset_of(seen),
        forall|id: Seq<u8>, dep: Seq<u8>|
            seen.contains(id) && #[trigger] depends_on(reg, index, events, id, dep)
                ==> seen.contains(dep),
    ensures
        seen.contains(path.last()),
    decreases path.len(),
{
    if path.len() > 1 {
        let shorter = path.drop_last();
        assert forall|i: int| 0 < i < shorter.len() implies depends_on(
            reg,
            index,
            events,
            shorter[i - 1],
            #[trigger] shorter[i],
        ) by {
            assert(path[i] == shorter[i]);
        }
        lemma_closed_set_holds_all(reg, index, events, roots, seen, shorter);
        assert(depends_on(reg, index, events, path[path.len() - 2], path[path.len() - 1]));
    }
}

/// Keeping what is known of an event changes nothing that is known.
proof fn lemma_keeping_deps<R: EventRegistry>(
    reg: &R,
    before: IndexState,
    events: Map<Seq<u8>, EventRow>,
    id: Seq<u8>,
    deps: Seq<EventId>,
)
    requires
        known_deps(reg, before, events, id) == Ok::<Seq<EventId>, Seq<char>>(deps),
    ensures
        same_knowledge(
            reg,
            before,
            IndexState { deps: before.deps.insert(id, deps), ..before },
            events,
        ),
{
}

/// Two states of the index hold the same events and know the same dependencies.
pub open spec fn same_knowledge<R: EventRegistry>(
    reg: &R,
    before: IndexState,
    after: IndexState,
    events: Map<Seq<u8>, EventRow>,
) -> bool {
    &&& after.entries == before.entries
    &&& forall|id: Seq<u8>| #[trigger]
        known_deps(reg, after, events, id) == known_deps(reg, before, events, id)
}

/// The dependencies of some more events are kept: those that `extra` holds of.
pub open spec fn deps_kept(
    before: IndexState,
    after: IndexState,
    extra: spec_fn(Seq<u8>) -> bool,
) -> bool {
    &&& forall|id: Seq<u8>| #[trigger]
        before.deps.contains_key(id) ==> after.deps.contains_key(id)
    &&& forall|id: Seq<u8>| #[trigger]
        after.deps.contains_key(id) ==> before.deps.contains_key(id) || (
        before.entries.contains_key(id) && extra(id))
}

impl SyncIndex {
    /// The dependencies of an event, read off its bytes when they were not looked up before.
    fn dependencies_for<R: EventRegistry>(&mut self, store: &Store, registry: &R, event_id: &EventId)
        -> (r: Result<Vec<EventId>, String>)
        requires
            old(self).wf(),
            store.wf(),
        ensures
            final(self).wf(),
            same_knowledge(registry, old(self)@, final(self)@, store@.events.events),
            match known_deps(registry, old(self)@, store@.events.events, event_id@) {
                Ok(deps) => {
                    &&& r matches Ok(x) && x@ == deps
                    &&& final(self)@.deps == (if old(self)@.entries.contains_key(event_id@) {
                        old(self)@.deps.insert(event_id@, deps)
                    } else {
                        old(self)@.deps
                    })
                },
                Err(e) => {
                    &&& r matches Err(x) && x@ == e
                    &&& final(self)@ == old(self)@
                },
            },
    {
        proof {
            self.lemma_valid();
        }
        match self.cached_deps(event_id) {
            Some(deps) => {
                assert(self@.deps.insert(event_id@, deps@) =~= self@.deps);
                return Ok(deps);
            },
            None => {},
        }
        if !self.has_event(event_id) {
            return Ok(Vec::new());
        }
        let bytes = match store.events.event_bytes(event_id) {
            Some(bytes) => bytes,
            None => {
                return Err(text("sync index referenced missing dependency event"));
            },
        };
        match registry.record_from_bytes(bytes) {
            Ok(record) => {
                proof {
                    lemma_keeping_deps(
                        registry,
                        self@,
                        store@.events.events,
                        event_id@,
                        record.dependencies@,
                    );
                }
                self.keep_deps(event_id, copy_ids(&record.dependencies));
                Ok(record.dependencies)
            },
            Err(e) => Err(e),
        }
    }
}

/// An id is among some ids.
pub open spec fn is_among(ids: Seq<EventId>, id: Seq<u8>) -> bool {
    exists|i: int| 0 <= i < ids.len() && (#[trigger] ids[i])@ == id
}

fn append_ids(ids: &mut Vec<EventId>, more: &Vec<EventId>)
    ensures
        final(ids)@ == old(ids)@ + more@,
{
    let mut i: usize = 0;
    assert(ids@ =~= old(ids)@ + more@.take(0));
    while i < more.len()
        invariant
            i <= more@.len(),
            ids@ == old(ids)@ + more@.take(i as int),
        decreases more.len() - i,
    {
        ids.push(more[i]);
        assert(more@.take(i + 1) =~= more@.take(i as int).push(more@[i as int]));
        assert(ids@ =~= old(ids)@ + more@.take(i + 1));
        i = i + 1;
    }
    assert(more@.take(i as int) =~= more@);
}

/// Where a walk over dependencies stands: what was seen, whose dependencies were followed, and
/// what is still to be looked at.
pub open spec fn walk_stands<R: EventRegistry>(
    reg: &R,
    b: IndexState,
    events: Map<Seq<u8>, EventRow>,
    roots: Set<Seq<u8>>,
    seen: Set<Seq<u8>>,
    followed: Set<Seq<u8>>,
    stack: Seq<EventId>,
) -> bool {
    &&& roots.subset_of(seen)
    &&& followed.subset_of(seen)
    &&& forall|id: Seq<u8>| #[trigger] seen.contains(id) ==> is_reached(reg, b, events, roots, id)
    &&& forall|i: int|
        0 <= i < stack.len() ==> is_reached(reg, b, events, roots, (#[trigger] stack[i])@)
    &&& forall|id: Seq<u8>| #[trigger]
        followed.contains(id) ==> known_deps(reg, b, events, id) is Ok
    &&& forall|id: Seq<u8>, dep: Seq<u8>|
        followed.contains(id) && #[trigger] depends_on(reg, b, events, id, dep) ==> seen.contains(
            dep,
        ) || is_among(stack, dep)
}

/// The dependencies of a seen event are put on the stack.
proof fn lemma_follow<R: EventRegistry>(
    reg: &R,
    b: IndexState,
    events: Map<Seq<u8>, EventRow>,
    roots: Set<Seq<u8>>,
    seen: Set<Seq<u8>>,
    followed: Set<Seq<u8>>,
    stack: Seq<EventId>,
    id: Seq<u8>,
    deps: Seq<EventId>,
)
    requires
        walk_stands(reg, b, events, roots, seen, followed, stack),
        seen.contains(id),
        known_deps(reg, b, events, id) == Ok::<Seq<EventId>, Seq<char>>(deps),
    ensures
        walk_stands(reg, b, events, roots, seen, followed.insert(id), stack + deps),
{
    let after = stack + deps;
    assert forall|i: int| 0 <= i < after.len() implies is_reached(
        reg,
        b,
        events,
        roots,
        (#[trigger] after[i])@,
    ) by {
        if i < stack.len() {
            assert(after[i] == stack[i]);
        } else {
            let k = i - stack.len();
            assert(after[i] == deps[k]);
            assert(known_deps(reg, b, events, id)->Ok_0[k]@ == after[i]@);
            assert(depends_on(reg, b, events, id, after[i]@));
            lemma_step_is_reached(reg, b, events, roots, id, after[i]@);
        }
    }
    assert forall|x: Seq<u8>, dep: Seq<u8>|
        followed.insert(id).contains(x) && #[trigger] depends_on(
            reg,
            b,
            events,
            x,
            dep,
        ) implies seen.contains(dep) || is_among(after, dep) by {
        if x == id {
            let i = choose|i: int| 0 <= i < deps.len() && (#[trigger] deps[i])@ == dep;
            assert(after[stack.len() + i]@ == dep);
        } else if !seen.contains(dep) {
            let i = choose|i: int| 0 <= i < stack.len() && (#[trigger] stack[i])@ == dep;
            assert(after[i]@ == dep);
        }
    }
}

/// The top of the stack is seen.
proof fn lemma_see_top<R: EventRegistry>(
    reg: &R,
    b: IndexState,
    events: Map<Seq<u8>, EventRow>,
    roots: Set<Seq<u8>>,
    seen: Set<Seq<u8>>,
    followed: Set<Seq<u8>>,
    stack: Seq<EventId>,
)
    requires
        stack.len() > 0,
        walk_stands(reg, b, events, roots, seen, followed, stack),
    ensures
        walk_stands(
            reg,
            b,
            events,
            roots,
            seen.insert(stack.last()@),
            followed,
            stack.drop_last(),
        ),
{
    let rest = stack.drop_last();
    let top = stack.last()@;
    assert(is_reached(reg, b, events, roots, stack[stack.len() - 1]@));
    assert forall|i: int| 0 <= i < rest.len() implies is_reached(
        reg,
        b,
        events,
        roots,
        (#[trigger] rest[i])@,
    ) by {
        assert(rest[i] == stack[i]);
    }
    assert forall|x: Seq<u8>, dep: Seq<u8>|
        followed.contains(x) && #[trigger] depends_on(
            reg,
            b,
            events,
            x,
            dep,
        ) implies seen.insert(top).contains(dep) || is_among(rest, dep) by {
        if !seen.contains(dep) && dep != top {
            let i = choose|i: int| 0 <= i < stack.len() && (#[trigger] stack[i])@ == dep;
            assert(rest[i]@ == dep);
        }
    }
}

/// What a walk leaves: on success the dependencies of all indexed events that it reached are
/// kept.
pub open spec fn closure_done<R: EventRegistry>(
    reg: &R,
    b: IndexState,
    a: IndexState,
    events: Map<Seq<u8>, EventRow>,
    roots: Set<Seq<u8>>,
    r: Result<Vec<EventIndexEntry>, String>,
) -> bool {
    &&& same_knowledge(reg, b, a, events)
    &&& deps_kept(b, a, |id: Seq<u8>| is_reached(reg, b, events, roots, id))
    &&& match r {
        Ok(entries) => {
            &&& entries@ == closure_of(reg, b, events, roots)
            &&& forall|id: Seq<u8>| #[trigger]
                is_reached(reg, b, events, roots, id) ==> known_deps(reg, b, events, id) is Ok
            &&& forall|id: Seq<u8>| #[trigger]
                is_reached(reg, b, events, roots, id) && b.entries.contains_key(id)
                    ==> a.deps.contains_key(id)
        },
        Err(e) => exists|id: Seq<u8>| #[trigger]
            is_reached(reg, b, events, roots, id) && known_deps(reg, b, events, id) == Err::<
                Seq<EventId>,
                Seq<char>,
            >(e@),
    }
}

impl SyncIndex {
    /// The indexed events that some events depend on, directly or not, without these
    /// themselves. Fails where the dependencies of an event that is reached cannot be read.
    pub fn dependency_closure_entries<R: EventRegistry>(
        &mut self,
        store: &Store,
        registry: &R,
        roots: &Vec<EventIndexEntry>,
    ) -> (r: Result<Vec<EventIndexEntry>, String>)
        requires
            old(self).wf(),
            store.wf(),
        ensures
            final(self).wf(),
            closure_done(
                registry,
                old(self)@,
                final(self)@,
                store@.events.events,
                ids_of(roots@),
                r,
            ),
    {
        let ghost b = self@;
        let ghost events = store@.events.events;
        let ghost root_ids = ids_of(roots@);
        let ghost views = roots@.map_values(|e: EventIndexEntry| e.event_id@);
        let mut seen: Table<Mark> = Table::new();
        let mut root_set: Table<Mark> = Table::new();
        let mut i: usize = 0;
        proof {
            assert(views.take(0).to_set() =~= Set::empty());
        }
        while i < roots.len()
            invariant
                i <= roots@.len(),
                seen.wf(),
                root_set.wf(),
                views == roots@.map_values(|e: EventIndexEntry| e.event_id@),
                seen@.dom() == views.take(i as int).to_set(),
                root_set@.dom() == views.take(i as int).to_set(),
            decreases roots.len() - i,
        {
            let _ = seen.insert(id_bytes(&roots[i].event_id), Mark);
            let _ = root_set.insert(id_bytes(&roots[i].event_id), Mark);
            proof {
                let a = views.take(i as int);
                let id = roots@[i as int].event_id@;
                assert(views.take(i + 1) =~= a.push(id));
                a.lemma_push_to_set_commute(id);
                assert(seen@.dom() =~= views.take(i + 1).to_set());
                assert(root_set@.dom() =~= views.take(i + 1).to_set());
            }
            i = i + 1;
        }
        proof {
            assert(views.take(i as int) =~= views);
            assert forall|id: Seq<u8>| #[trigger] seen@.dom().contains(id) implies is_reached(
                registry,
                b,
                events,
                root_ids,
                id,
            ) by {
                lemma_root_is_reached(registry, b, events, root_ids, id);
            }
            self.lemma_valid();
        }
        let mut stack: Vec<EventId> = Vec::new();
        let ghost mut followed: Set<Seq<u8>> = Set::empty();
        let mut j: usize = 0;
        while j < roots.len()
            invariant
                self.wf(),
                store.wf(),
                b == old(self)@,
                events == store@.events.events,
                root_ids == ids_of(roots@),
                views == roots@.map_values(|e: EventIndexEntry| e.event_id@),
                j <= roots@.len(),
                seen.wf(),
                root_set.wf(),
                seen@.dom() == root_ids,
                root_set@.dom() == root_ids,
                walk_stands(registry, b, events, root_ids, seen@.dom(), followed, stack@),
                followed == views.take(j as int).to_set(),
                forall|id: Seq<u8>| #[trigger]
                    b.deps.contains_key(id) ==> b.entries.contains_key(id),
                same_knowledge(registry, b, self@, events),
                deps_kept(b, self@, |id: Seq<u8>| is_reached(registry, b, events, root_ids, id)),
                forall|id: Seq<u8>| #[trigger]
                    followed.contains(id) && b.entries.contains_key(id)
                        ==> self@.deps.contains_key(id),
            decreases roots.len() - j,
        {
            let id = roots[j].event_id;
            proof {
                assert(views[j as int] == id@);
                assert(views.contains(id@));
                assert(root_ids.contains(id@));
                lemma_root_is_reached(registry, b, events, root_ids, id@);
                assert(known_deps(registry, self@, events, id@) == known_deps(
                    registry,
                    b,
                    events,
                    id@,
                ));
            }
            let deps = match self.dependencies_for(store, registry, &id) {
                Ok(deps) => deps,
                Err(e) => {
                    return Err(e);
                },
            };
            proof {
                lemma_follow(
                    registry,
                    b,
                    events,
                    root_ids,
                    seen@.dom(),
                    followed,
                    stack@,
                    id@,
                    deps@,
                );
            }
            append_ids(&mut stack, &deps);
            proof {
                followed = followed.insert(id@);
                let a = views.take(j as int);
                assert(views.take(j + 1) =~= a.push(id@));
                a.lemma_push_to_set_commute(id@);
            }
            j = j + 1;
        }
        proof {
            assert(views.take(j as int) =~= views);
            self.lemma_valid();
        }
        while stack.len() > 0
            invariant
                self.wf(),
                store.wf(),
                b == old(self)@,
                b.entries.dom().finite(),
                events == store@.events.events,
                root_ids == ids_of(roots@),
                seen.wf(),
                root_set.wf(),
                root_set@.dom() == root_ids,
                root_ids.subset_of(followed),
                walk_stands(registry, b, events, root_ids, seen@.dom(), followed, stack@),
                forall|id: Seq<u8>| #[trigger]
                    seen@.dom().contains(id) ==> followed.contains(id) || !b.entries.contains_key(
                        id,
                    ),
                forall|id: Seq<u8>| #[trigger]
                    b.deps.contains_key(id) ==> b.entries.contains_key(id),
                same_knowledge(registry, b, self@, events),
                deps_kept(b, self@, |id: Seq<u8>| is_reached(registry, b, events, root_ids, id)),
                forall|id: Seq<u8>| #[trigger]
                    followed.contains(id) && b.entries.contains_key(id)
                        ==> self@.deps.contains_key(id),
            decreases b.entries.dom().difference(seen@.dom()).len(), stack.len(),
        {
            let ghost stack_before = stack@;
            let ghost seen_before = seen@.dom();
            proof {
                lemma_see_top(registry, b, events, root_ids, seen_before, followed, stack@);
            }
            let dep = stack.pop().unwrap();
            assert(stack@ =~= stack_before.drop_last());
            let new = seen.insert(id_bytes(&dep), Mark);
            assert(seen@.dom() =~= seen_before.insert(dep@));
            if new {
                if self.has_event(&dep) {
                    proof {
                        let rest = b.entries.dom().difference(seen_before);
                        assert(rest.contains(dep@));
                        assert(b.entries.dom().difference(seen@.dom()) =~= rest.remove(dep@));
                        assert(known_deps(registry, self@, events, dep@) == known_deps(
                            registry,
                            b,
                            events,
                            dep@,
                        ));
                        assert(seen@.dom().contains(dep@));
                        assert(is_reached(registry, b, events, root_ids, dep@));
                    }
                    let deps = match self.dependencies_for(store, registry, &dep) {
                        Ok(deps) => deps,
                        Err(e) => {
                            return Err(e);
                        },
                    };
                    proof {
                        lemma_follow(
                            registry,
                            b,
                            events,
                            root_ids,
                            seen@.dom(),
                            followed,
                            stack@,
                            dep@,
                            deps@,
                        );
                    }
                    append_ids(&mut stack, &deps);
                    proof {
                        followed = followed.insert(dep@);
                    }
                } else {
                    assert(b.entries.dom().difference(seen@.dom()) =~= b.entries.dom().difference(
                        seen_before,
                    ));
                }
            } else {
                assert(seen@.dom() =~= seen_before);
            }
        }
        proof {
            let all = seen@.dom();
            assert forall|id: Seq<u8>, dep: Seq<u8>|
                all.contains(id) && #[trigger] depends_on(
                    registry,
                    b,
                    events,
                    id,
                    dep,
                ) implies all.contains(dep) by {
                if !followed.contains(id) {
                    assert(!b.entries.contains_key(id));
                    assert(!b.deps.contains_key(id));
                }
            }
            assert forall|id: Seq<u8>| #[trigger]
                is_reached(registry, b, events, root_ids, id) implies all.contains(id) by {
                let path = choose|path: Seq<Seq<u8>>| #[trigger]
                    is_walk(registry, b, events, root_ids, path) && path.last() == id;
                lemma_closed_set_holds_all(registry, b, events, root_ids, all, path);
            }
            assert forall|id: Seq<u8>| #[trigger]
                is_reached(registry, b, events, root_ids, id) implies known_deps(
                registry,
                b,
                events,
                id,
            ) is Ok && (b.entries.contains_key(id) ==> self@.deps.contains_key(id)) by {
                assert(all.contains(id));
                if !followed.contains(id) {
                    assert(!b.deps.contains_key(id));
                }
            }
        }
        let ordered = self.ids_in_range(TimestampRange::root());
        let ghost keep = |e: EventIndexEntry|
            !root_ids.contains(e.event_id@) && is_reached(
                registry,
                b,
                events,
                root_ids,
                e.event_id@,
            );
        let mut out: Vec<EventIndexEntry> = Vec::new();
        let mut n: usize = 0;
        proof {
            crate::sync_index::lemma_root_holds_all(in_time_order(b.entries));
            reveal(Seq::filter);
            assert(ordered@.take(0).filter(keep) =~= Seq::<EventIndexEntry>::empty());
        }
        while n < ordered.len()
            invariant
                n <= ordered@.len(),
                seen.wf(),
                root_set.wf(),
                root_set@.dom() == root_ids,
                forall|id: Seq<u8>| #[trigger]
                    seen@.dom().contains(id) <==> is_reached(registry, b, events, root_ids, id),
                keep == (|e: EventIndexEntry|
                    !root_ids.contains(e.event_id@) && is_reached(
                        registry,
                        b,
                        events,
                        root_ids,
                        e.event_id@,
                    )),
                out@ == ordered@.take(n as int).filter(keep),
            decreases ordered.len() - n,
        {
            proof {
                lemma_filter_next(ordered@, keep, n as int);
            }
            let entry = ordered[n];
            assert(seen@.dom().contains(entry.event_id@) <==> is_reached(
                registry,
                b,
                events,
                root_ids,
                entry.event_id@,
            ));
            if seen.contains(entry.event_id.as_slice()) && !root_set.contains(
                entry.event_id.as_slice(),
            ) {
                out.push(entry);
            }
            n = n + 1;
        }
        assert(ordered@.take(n as int) =~= ordered@);
        Ok(out)
    }
}

// ---------------------------------------------------------------------------
// Laws
// ---------------------------------------------------------------------------

/// The dependencies of every event of a closure that the index holds are roots or in the
/// closure themselves.
pub proof fn law_closure_is_closed<R: EventRegistry>(
    reg: &R,
    index: IndexState,
    events: Map<Seq<u8>, EventRow>,
    roots: Set<Seq<u8>>,
    id: Seq<u8>,
    dep: Seq<u8>,
)
    requires
        is_reached(reg, index, events, roots, id),
        depends_on(reg, index, events, id, dep),
    ensures
        is_reached(reg, index, events, roots, dep),
{
    lemma_step_is_reached(reg, index, events, roots, id, dep);
}

} // verus!
