//! Telling the sync index what was purged.
//!
//! Purging a shared event queues its id. A drain takes the first queued ids, in key order, out
//! of the index and then off the queue; an id that the index does not have is just taken off
//! the queue, so that draining again after a restart does no harm.
use vstd::prelude::*;
use crate::bytes::{copy_bytes, has_prefix, lemma_id_of, EventId};
use crate::purging::{
    drain_pending_purges, pending_purge_of, pending_purges, purge_views, NEGENTROPY_PENDING_PURGES,
};
use crate::schema::lemma_collected_at;
use crate::store::{Store, StoreState};
use crate::sync_index::{root_summary_of, IndexState, SyncIndex};
use crate::table::{countable, key_views};
use crate::tables::{keys_of, law_first_rows_come_first, rows_listed, rows_removed, TableName};

verus! {

/// How many queued ids a drain takes unless told otherwise.
pub const DEFAULT_DRAIN_LIMIT: usize = 4096;

/// What a drain counted.
#[derive(Debug, Clone, Copy, PartialEq, Eq)]
pub struct DrainReport {
    /// Queued ids that were taken.
    pub drained_rows: usize,
    /// Those of them that the index had.
    pub removed_from_index: usize,
}

/// Work of the drainer.
#[derive(Debug, Clone, Copy, PartialEq, Eq)]
pub enum Work {
    /// Take at most `limit` queued ids.
    Drain { limit: usize },
}

/// The index without the first `n` purged events.
pub open spec fn forgotten(index: IndexState, purges: Seq<(Seq<u8>, EventId)>, n: int) -> IndexState
    decreases n,
{
    if n <= 0 {
        index
    } else {
        let p = forgotten(index, purges, n - 1);
        let id = purges[n - 1].1@;
        IndexState { entries: p.entries.remove(id), deps: p.deps.remove(id) }
    }
}

/// How many of the first `n` purged events the index has.
pub open spec fn forgotten_count(index: IndexState, purges: Seq<(Seq<u8>, EventId)>, n: int) -> nat
    decreases n,
{
    if n <= 0 {
        0
    } else {
        forgotten_count(index, purges, n - 1) + if forgotten(
            index,
            purges,
            n - 1,
        ).entries.contains_key(purges[n - 1].1@) {
            1nat
        } else {
            0
        }
    }
}

/// The keys of some queued purges.
pub open spec fn purge_keys(purges: Seq<(Seq<u8>, EventId)>) -> Set<Seq<u8>> {
    purges.map_values(|p: (Seq<u8>, EventId)| p.0).to_set()
}

/// What a drain leaves and returns.
pub open spec fn purges_drained(
    s0: StoreState,
    i0: IndexState,
    limit: usize,
    s1: StoreState,
    i1: IndexState,
    r: Result<DrainReport, String>,
) -> bool {
    match pending_purges(s0.rows, limit) {
        Err(e) => {
            &&& r matches Err(x) && x@ == e
            &&& s1 == s0
            &&& i1 == i0
        },
        Ok(purges) => {
            &&& r matches Ok(report) && report.drained_rows == purges.len()
                && report.removed_from_index == forgotten_count(i0, purges, purges.len() as int)
            &&& i1 == forgotten(i0, purges, purges.len() as int)
            &&& s1 == (StoreState {
                rows: rows_removed(s0.rows, NEGENTROPY_PENDING_PURGES, purge_keys(purges)),
                ..s0
            })
        },
    }
}

/// Run one unit of work.
pub fn run(store: &mut Store, index: &mut SyncIndex, work: Work) -> (r: Result<DrainReport, String>)
    requires
        old(store).wf(),
        old(index).wf(),
    ensures
        final(store).wf(),
        final(index).wf(),
        work matches Work::Drain { limit } && purges_drained(
            old(store)@,
            old(index)@,
            limit,
            final(store)@,
            final(index)@,
            r,
        ),
{
    match work {
        Work::Drain { limit } => drain(store, index, limit),
    }
}

fn drain(store: &mut Store, index: &mut SyncIndex, limit: usize) -> (r: Result<DrainReport, String>)
    requires
        old(store).wf(),
        old(index).wf(),
    ensures
        final(store).wf(),
        final(index).wf(),
        purges_drained(
            old(store)@,
            old(index)@,
            limit,
            final(store)@,
            final(index)@,
            r,
        ),
{
    let mut report = DrainReport { drained_rows: 0, removed_from_index: 0 };
    let pending = match drain_pending_purges(store, limit) {
        Ok(pending) => pending,
        Err(e) => {
            return Err(e);
        },
    };
    let ghost purges = purge_views(pending@);
    let ghost start = index@;
    let ghost key_of = |p: (Seq<u8>, EventId)| p.0;
    let mut keys: Vec<Vec<u8>> = Vec::new();
    let mut i: usize = 0;
    proof {
        assert(key_views(keys@) =~= purges.take(0).map_values(key_of));
    }
    while i < pending.len()
        invariant
            index.wf(),
            i <= pending@.len(),
            purges == purge_views(pending@),
            key_of == (|p: (Seq<u8>, EventId)| p.0),
            index@ == forgotten(start, purges, i as int),
            report.drained_rows == i,
            report.removed_from_index == forgotten_count(start, purges, i as int),
            report.removed_from_index <= i,
            key_views(keys@) == purges.take(i as int).map_values(key_of),
        decreases pending.len() - i,
    {
        assert(purges[i as int] == (pending@[i as int].key@, pending@[i as int].event_id));
        report.drained_rows = report.drained_rows + 1;
        if index.remove_event(&pending[i].event_id) {
            report.removed_from_index = report.removed_from_index + 1;
        }
        let key = copy_bytes(pending[i].key.as_slice());
        let ghost before = keys@;
        keys.push(key);
        proof {
            assert(key_views(keys@) =~= key_views(before).push(key@));
            assert(purges.take(i + 1) =~= purges.take(i as int).push(purges[i as int]));
            assert(key_views(keys@) =~= purges.take(i + 1).map_values(key_of));
        }
        i = i + 1;
    }
    proof {
        assert(purges.len() == pending@.len());
        assert(purges.take(i as int) =~= purges);
    }
    let _ = store.tables.delete_table_rows(NEGENTROPY_PENDING_PURGES, &keys);
    Ok(report)
}

// ---------------------------------------------------------------------------
// Laws
// ---------------------------------------------------------------------------

/// The ids of some purges.
pub open spec fn purged_ids(purges: Seq<(Seq<u8>, EventId)>, n: int) -> Set<Seq<u8>> {
    Set::new(|id: Seq<u8>| exists|i: int| 0 <= i < n && (#[trigger] purges[i]).1@ == id)
}

proof fn lemma_forgotten(index: IndexState, purges: Seq<(Seq<u8>, EventId)>, n: int)
    requires
        0 <= n <= purges.len(),
    ensures
        forgotten(index, purges, n).entries == index.entries.remove_keys(purged_ids(purges, n)),
        forgotten(index, purges, n).deps == index.deps.remove_keys(purged_ids(purges, n)),
    decreases n,
{
    if n > 0 {
        lemma_forgotten(index, purges, n - 1);
        let (a, b) = (purged_ids(purges, n - 1), purged_ids(purges, n));
        let id = purges[n - 1].1@;
        assert forall|x: Seq<u8>| #[trigger] b.contains(x) <==> a.contains(x) || x == id by {
            if b.contains(x) {
                let i = choose|i: int| 0 <= i < n && (#[trigger] purges[i]).1@ == x;
                if i < n - 1 {
                    assert(purges[i].1@ == x);
                }
            }
            if a.contains(x) {
                let i = choose|i: int| 0 <= i < n - 1 && (#[trigger] purges[i]).1@ == x;
                assert(purges[i].1@ == x);
            }
            assert(purges[n - 1].1@ == id);
        }
    }
    assert(forgotten(index, purges, n).entries =~= index.entries.remove_keys(
        purged_ids(purges, n),
    ));
    assert(forgotten(index, purges, n).deps =~= index.deps.remove_keys(purged_ids(purges, n)));
}

/// Two peers with the same index that purged the same events come to the same summary,
/// whatever order they purged them in.
pub proof fn law_purge_order_does_not_matter(
    index: IndexState,
    a: Seq<(Seq<u8>, EventId)>,
    b: Seq<(Seq<u8>, EventId)>,
)
    requires
        purged_ids(a, a.len() as int) == purged_ids(b, b.len() as int),
    ensures
        forgotten(index, a, a.len() as int) == forgotten(index, b, b.len() as int),
        root_summary_of(forgotten(index, a, a.len() as int).entries) == root_summary_of(
            forgotten(index, b, b.len() as int).entries,
        ),
{
    lemma_forgotten(index, a, a.len() as int);
    lemma_forgotten(index, b, b.len() as int);
}

/// What was forgotten once is not there to be forgotten again.
pub proof fn law_forgetting_again_changes_nothing(
    index: IndexState,
    purges: Seq<(Seq<u8>, EventId)>,
    n: int,
)
    requires
        0 <= n <= purges.len(),
    ensures
        ({
            let once = forgotten(index, purges, purges.len() as int);
            &&& forgotten(once, purges, n) == once
            &&& forgotten_count(once, purges, n) == 0
        }),
    decreases n,
{
    let once = forgotten(index, purges, purges.len() as int);
    lemma_forgotten(index, purges, purges.len() as int);
    if n > 0 {
        law_forgetting_again_changes_nothing(index, purges, n - 1);
        let id = purges[n - 1].1@;
        assert(purges[n - 1].1@ == id);
        assert(purged_ids(purges, purges.len() as int).contains(id));
        assert(once.entries.remove(id) =~= once.entries);
        assert(once.deps.remove(id) =~= once.deps);
    }
}

/// The index holds nothing of a purged event.
pub proof fn law_purged_event_is_forgotten(
    index: IndexState,
    purges: Seq<(Seq<u8>, EventId)>,
    i: int,
)
    requires
        0 <= i < purges.len(),
    ensures
        !forgotten(index, purges, purges.len() as int).entries.contains_key(purges[i].1@),
        !forgotten(index, purges, purges.len() as int).deps.contains_key(purges[i].1@),
{
    lemma_forgotten(index, purges, purges.len() as int);
    assert(purged_ids(purges, purges.len() as int).contains(purges[i].1@));
}

/// What one drain does: each queued purge that it takes off the queue is forgotten by the index,
/// with its dependencies; where the limit leaves room the queue is empty afterwards. What was not
/// queued stays in the index, and so do all other rows.
pub proof fn law_every_queued_purge_is_forgotten(
    s0: StoreState,
    i0: IndexState,
    limit: usize,
    s1: StoreState,
    i1: IndexState,
    report: DrainReport,
)
    requires
        countable(keys_of(s0.rows, NEGENTROPY_PENDING_PURGES)),
        purges_drained(s0, i0, limit, s1, i1, Ok(report)),
    ensures
        forall|k: Seq<u8>| #[trigger]
            s0.rows.contains_key((NEGENTROPY_PENDING_PURGES, k)) && !s1.rows.contains_key(
                (NEGENTROPY_PENDING_PURGES, k),
            ) ==> !i1.entries.contains_key(k.skip(32)) && !i1.deps.contains_key(k.skip(32)),
        keys_of(s0.rows, NEGENTROPY_PENDING_PURGES).len() <= limit ==> forall|k: Seq<u8>|
            !#[trigger] s1.rows.contains_key((NEGENTROPY_PENDING_PURGES, k)),
        forall|id: Seq<u8>| #[trigger]
            i0.entries.contains_key(id) && (forall|w: Seq<u8>|
                w.len() == 32 ==> !#[trigger] s0.rows.contains_key(
                    (NEGENTROPY_PENDING_PURGES, w + id),
                )) ==> i1.entries.contains_key(id) && i1.entries[id] == i0.entries[id],
        forall|id: Seq<u8>| #[trigger]
            i1.entries.contains_key(id) ==> i0.entries.contains_key(id) && i1.entries[id]
                == i0.entries[id],
        forall|key: (TableName, Seq<u8>)| #[trigger]
            s0.rows.contains_key(key) && key.0 != NEGENTROPY_PENDING_PURGES
                ==> s1.rows.contains_key(key) && s1.rows[key] == s0.rows[key],
        s1.events == s0.events,
        report.drained_rows <= limit,
{
    let t = NEGENTROPY_PENDING_PURGES;
    let m = s0.rows;
    let rows = rows_listed(m, t, Seq::empty(), limit);
    let items = rows.map_values(|row: (Seq<u8>, Seq<u8>)| pending_purge_of(row));
    let purges = pending_purges(m, limit)->Ok_0;
    let n = purges.len() as int;
    law_first_rows_come_first(m, t, Seq::empty(), limit);
    lemma_collected_at(items);
    lemma_forgotten(i0, purges, n);
    let keys = purges.map_values(|p: (Seq<u8>, EventId)| p.0);
    assert forall|i: int| 0 <= i < n implies (#[trigger] purges[i]).0 == rows[i].0
        && purges[i].0.len() == 64 && purges[i].1@ == purges[i].0.skip(32) by {
        assert(items[i] == pending_purge_of(rows[i]));
        lemma_id_of(rows[i].0.skip(32), purges[i].1);
    }
    assert forall|k: Seq<u8>| has_prefix(k, Seq::<u8>::empty()) by {
        assert(k.take(0) =~= Seq::<u8>::empty());
    }
    assert forall|k: Seq<u8>| #[trigger]
        m.contains_key((t, k)) && !s1.rows.contains_key((t, k)) implies !i1.entries.contains_key(
        k.skip(32),
    ) && !i1.deps.contains_key(k.skip(32)) by {
        assert(purge_keys(purges).contains(k));
        let i = choose|i: int| 0 <= i < keys.len() && keys[i] == k;
        assert(purges[i].1@ == k.skip(32));
        assert(purged_ids(purges, n).contains(k.skip(32)));
    }
    if keys_of(m, t).len() <= limit {
        assert forall|k: Seq<u8>| !#[trigger] s1.rows.contains_key((t, k)) by {
            if m.contains_key((t, k)) {
                assert(rows.contains((k, m[(t, k)])));
                let i = choose|i: int| 0 <= i < rows.len() && rows[i] == (k, m[(t, k)]);
                assert(keys[i] == k);
                assert(purge_keys(purges).contains(k));
            }
        }
    }
    assert forall|id: Seq<u8>| #[trigger]
        i0.entries.contains_key(id) && (forall|w: Seq<u8>|
            w.len() == 32 ==> !#[trigger] m.contains_key((t, w + id))) implies i1.entries.contains_key(
    id) && i1.entries[id] == i0.entries[id] by {
        if purged_ids(purges, n).contains(id) {
            let i = choose|i: int| 0 <= i < n && (#[trigger] purges[i]).1@ == id;
            let k = purges[i].0;
            assert(k =~= k.take(32) + id);
            assert(m.contains_key((t, rows[i].0)));
            assert(m.contains_key((t, k.take(32) + id)));
        }
    }
}

} // verus!
