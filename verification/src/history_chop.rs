//! Chopping the minutes below a floor off the time axis.
use vstd::prelude::*;
use crate::bytes::{id_eq, id_is_zero, lemma_id_ext, zero_bytes, EventId};
use crate::content::{
    list_message_tombstones_for_workspace, message_key, message_key_bytes, tombstones_of_workspace,
    valid_message_tombstones, MessageTombstoneRow,
};
use crate::event_store::EventStore;
use crate::events::saturated;
use crate::history::{
    half_coord, lemma_aligned_range, lemma_half_valid, lemma_mask_none, lemma_root_splittable,
    make_time_coord, root_source, row_source, source_of_root, source_of_row, splittable, time_child,
    valid_coord, Coord, DerivationSource, Frontier, HistoryNodeRow, NodeTombstoneRow,
    TIME_TREE_BIT_DEPTH, TRIE_LEAF_BIT_DEPTH,
};
use crate::history_store::{
    tombstone_key, valid_history, workspace_tombstones, HistoryState, HistoryStore,
};
use crate::history_tree::{
    ensure_time_split, ensured, halvings, lemma_halvings_bound, new_rows, row_target, targets_where,
    vault, wipe_targets, wiped_upto, EnsureSplitOutcome, Vault, WipeTarget,
};
use crate::table::Table;

verus! {

/// The result of a chop.
#[derive(Debug, Clone, Copy, PartialEq, Eq)]
pub struct ChopReport {
    /// Subtrees that lie below the floor as a whole, one for each boundary level where
    /// the floor lies in the right half.
    pub subtree_tombstones_written: usize,
    /// Ranges that the boundary runs through, the starting one among them.
    pub boundary_descend_tombstones_written: usize,
    /// Right halves above the floor that got a row.
    pub right_side_siblings_materialized: usize,
    /// Events whose bytes are gone.
    pub purged_event_bytes: usize,
    /// Node tombstones of this frontier below the floor that were dropped.
    pub subsumed_leaf_tombstones_gcd: usize,
    /// Message tombstones of this workspace below the floor that were dropped.
    pub subsumed_message_tombstones_gcd: usize,
}

/// The report of a chop that does nothing.
pub open spec fn no_chop() -> ChopReport {
    ChopReport {
        subtree_tombstones_written: 0,
        boundary_descend_tombstones_written: 0,
        right_side_siblings_materialized: 0,
        purged_event_bytes: 0,
        subsumed_leaf_tombstones_gcd: 0,
        subsumed_message_tombstones_gcd: 0,
    }
}

impl Default for ChopReport {
    fn default() -> (r: ChopReport)
        ensures
            r == no_chop(),
    {
        ChopReport {
            subtree_tombstones_written: 0,
            boundary_descend_tombstones_written: 0,
            right_side_siblings_materialized: 0,
            purged_event_bytes: 0,
            subsumed_leaf_tombstones_gcd: 0,
            subsumed_message_tombstones_gcd: 0,
        }
    }
}

/// A chop on its way: the vault, the node that it stands on, and what it counted, the events
/// that it stored among them.
pub struct ChopWalk {
    pub vault: Vault,
    pub src: DerivationSource,
    pub subtrees: int,
    pub boundary: int,
    pub siblings: int,
    pub admitted: int,
}

/// The row of a split as a source.
pub open spec fn split_source(src: DerivationSource, side: u8, o: EnsureSplitOutcome) -> DerivationSource {
    DerivationSource {
        secret_id: o.row_event_id,
        secret: o.row_secret,
        coord: half_coord(src.coord, side),
    }
}

/// The boundary runs through the range: some of its minutes lie below the floor and some
/// do not.
pub open spec fn straddles(c: Coord, floor: u64) -> bool {
    c.range_start < floor < c.range_start + c.range_width
}

/// One step of a chop: both halves of the range get a row. With the floor in the right half
/// the left one lies below it as a whole, and the boundary goes on in the right one; with the
/// floor in the left half the right one survives, and the boundary goes on in the left one.
pub open spec fn chop_step(w: ChopWalk, f: Frontier, floor: u64) -> ChopWalk {
    if floor >= w.src.coord.range_start + w.src.coord.range_width / 2 {
        let (v1, left) = ensured(w.vault, time_child(f, w.src, 0));
        let (v2, right) = ensured(v1, time_child(f, w.src, 1));
        ChopWalk {
            vault: v2,
            src: split_source(w.src, 1, right),
            subtrees: w.subtrees + 1,
            boundary: w.boundary + 1,
            siblings: w.siblings,
            admitted: w.admitted + left.admitted_events + right.admitted_events,
        }
    } else {
        let (v1, right) = ensured(w.vault, time_child(f, w.src, 1));
        let (v2, left) = ensured(v1, time_child(f, w.src, 0));
        ChopWalk {
            vault: v2,
            src: split_source(w.src, 0, left),
            subtrees: w.subtrees,
            boundary: w.boundary + 1,
            siblings: w.siblings + new_rows(right),
            admitted: w.admitted + right.admitted_events + left.admitted_events,
        }
    }
}

/// The walk of a chop along the boundary.
pub open spec fn chop_walk(w: ChopWalk, f: Frontier, floor: u64) -> ChopWalk
    decreases w.src.coord.range_width,
{
    if straddles(w.src.coord, floor) {
        chop_walk(chop_step(w, f, floor), f, floor)
    } else {
        w
    }
}

/// The boundary runs through a kept row of the time axis.
pub open spec fn crossed(h: HistoryState, f: Frontier, floor: u64, row: HistoryNodeRow) -> bool {
    h.has_row(f, row) && row.coord.bit_depth == 0 && straddles(row.coord, floor)
}

/// `row` is the widest kept row that the boundary runs through.
pub open spec fn is_top_row(h: HistoryState, f: Frontier, floor: u64, row: HistoryNodeRow) -> bool {
    &&& crossed(h, f, floor, row)
    &&& forall|other: HistoryNodeRow| #[trigger]
        crossed(h, f, floor, other) && other != row ==> other.coord.range_width
            < row.coord.range_width
}

/// The widest kept row that the boundary runs through.
pub open spec fn top_row(h: HistoryState, f: Frontier, floor: u64) -> HistoryNodeRow {
    choose|row: HistoryNodeRow| is_top_row(h, f, floor, row)
}

/// The boundary runs through some kept row.
pub open spec fn any_crossed(h: HistoryState, f: Frontier, floor: u64) -> bool {
    exists|row: HistoryNodeRow| crossed(h, f, floor, row)
}

/// A chop that stands on a node and has not begun.
pub open spec fn chop_at(v: Vault, src: DerivationSource) -> ChopWalk {
    ChopWalk { vault: v, src, subtrees: 0, boundary: 0, siblings: 0, admitted: 0 }
}

/// The walk of a chop: from the frontier root, or else from the widest kept row that the
/// boundary runs through; no step at all without either.
pub open spec fn whole_chop_walk(v: Vault, f: Frontier, floor: u64) -> ChopWalk {
    if v.history.has_root(f) {
        chop_walk(chop_at(v, root_source(v.history.root(f))), f, floor)
    } else if any_crossed(v.history, f, floor) {
        chop_walk(chop_at(v, row_source(top_row(v.history, f, floor))), f, floor)
    } else {
        chop_at(v, root_source(v.history.root(f)))
    }
}

/// The wipe of the frontier root, when it is kept.
pub open spec fn root_targets(h: HistoryState, f: Frontier) -> Seq<WipeTarget> {
    if h.has_root(f) {
        let src = root_source(h.root(f));
        seq![WipeTarget { event_id: src.secret_id, coord: src.coord, is_frontier_root: true }]
    } else {
        Seq::empty()
    }
}

/// The wipes of the kept rows that reach below a floor, the rows of leaves aside, in the order
/// of their keys.
pub open spec fn rows_below(h: HistoryState, f: Frontier, floor: u64) -> Seq<WipeTarget> {
    targets_where(
        h,
        f,
        |row: HistoryNodeRow| row.coord.bit_depth < 256 && row.coord.range_start < floor,
    )
}

fn list_rows_below(history: &HistoryStore, frontier: &Frontier, floor: u64) -> (r: Vec<WipeTarget>)
    requires
        history.wf(),
    ensures
        r@ == rows_below(history@, *frontier, floor),
{
    let rows = history.list_for_frontier(frontier);
    let ghost keep = |row: HistoryNodeRow|
        row.coord.bit_depth < 256 && row.coord.range_start < floor;
    let ghost wipe = |row: HistoryNodeRow| row_target(row);
    let mut out: Vec<WipeTarget> = Vec::new();
    let mut i: usize = 0;
    proof {
        reveal(Seq::filter);
        assert(out@ =~= rows@.take(0).filter(keep).map_values(wipe));
    }
    while i < rows.len()
        invariant
            i <= rows@.len(),
            keep == (|row: HistoryNodeRow|
                row.coord.bit_depth < 256 && row.coord.range_start < floor),
            wipe == (|row: HistoryNodeRow| row_target(row)),
            out@ == rows@.take(i as int).filter(keep).map_values(wipe),
        decreases rows.len() - i,
    {
        let row = rows[i];
        proof {
            reveal(Seq::filter);
            assert(rows@.take(i + 1).drop_last() =~= rows@.take(i as int));
            assert(rows@.take(i + 1).last() == rows@[i as int]);
        }
        let ghost before = rows@.take(i as int).filter(keep);
        if row.coord.bit_depth < TRIE_LEAF_BIT_DEPTH && row.coord.range_start < floor {
            out.push(
                WipeTarget {
                    event_id: row.local_history_node_secret_id,
                    coord: row.coord,
                    is_frontier_root: false,
                },
            );
            assert(before.push(row).map_values(wipe) =~= before.map_values(wipe).push(
                row_target(row),
            ));
        }
        i = i + 1;
    }
    assert(rows@.take(i as int) =~= rows@);
    out
}

/// The replacement that the tombstones of a chop name: the frontier root while it is
/// kept, or else nothing but the wiped row itself.
pub open spec fn chop_replacement(h: HistoryState, f: Frontier) -> Option<EventId> {
    if h.has_root(f) && h.root(f).local_key_secret_id@ != zero_bytes() {
        Some(h.root(f).local_key_secret_id)
    } else {
        None
    }
}

/// The end of a range of minutes, or the last minute where it would lie beyond.
pub open spec fn range_end(start: u64, width: u64) -> int {
    if start + width > u64::MAX {
        u64::MAX as int
    } else {
        start + width
    }
}

/// A node tombstone of a frontier lies below a floor.
pub open spec fn node_tombstone_subsumed(row: NodeTombstoneRow, f: Frontier, floor: u64) -> bool {
    row.frontier == f && range_end(row.range_start, row.range_width) <= floor
}

/// A message tombstone of a workspace lies below a floor.
pub open spec fn message_tombstone_subsumed(
    row: MessageTombstoneRow,
    workspace_id: EventId,
    floor: u64,
) -> bool {
    row.workspace_id == workspace_id && row.authored_minute < floor
}

/// The node tombstones that a floor leaves.
pub open spec fn node_tombstones_left(
    m: Map<Seq<u8>, NodeTombstoneRow>,
    f: Frontier,
    floor: u64,
) -> Map<Seq<u8>, NodeTombstoneRow> {
    m.restrict(
        Set::new(|k: Seq<u8>| m.contains_key(k) && !node_tombstone_subsumed(m[k], f, floor)),
    )
}

/// The message tombstones that a floor leaves.
pub open spec fn message_tombstones_left(
    m: Map<Seq<u8>, MessageTombstoneRow>,
    workspace_id: EventId,
    floor: u64,
) -> Map<Seq<u8>, MessageTombstoneRow> {
    m.restrict(
        Set::new(
            |k: Seq<u8>| m.contains_key(k) && !message_tombstone_subsumed(m[k], workspace_id, floor),
        ),
    )
}

/// How many tombstones a floor dropped.
#[derive(Debug, Clone, Copy, PartialEq, Eq)]
pub struct SubsumedTombstones {
    pub leaf_tombstones: usize,
    pub message_tombstones: usize,
}

/// Drop the tombstones that a floor subsumes: node tombstones of this frontier whose
/// range ends at or below it, and message tombstones of this workspace from before it.
pub fn gc_subsumed_tombstones(
    history: &mut HistoryStore,
    messages: &mut Table<MessageTombstoneRow>,
    frontier: &Frontier,
    floor_minute: u64,
) -> (r: SubsumedTombstones)
    requires
        old(history).wf(),
        old(messages).wf(),
        valid_message_tombstones(old(messages)@),
    ensures
        final(history).wf(),
        final(messages).wf(),
        valid_message_tombstones(final(messages)@),
        final(history)@ == (HistoryState {
            tombstones: node_tombstones_left(old(history)@.tombstones, *frontier, floor_minute),
            ..old(history)@
        }),
        final(messages)@ == message_tombstones_left(
            old(messages)@,
            frontier.workspace_id,
            floor_minute,
        ),
        r.leaf_tombstones == workspace_tombstones(
            old(history)@,
            frontier.workspace_id,
        ).filter(
            |row: NodeTombstoneRow| node_tombstone_subsumed(row, *frontier, floor_minute),
        ).len(),
        r.message_tombstones == tombstones_of_workspace(
            old(messages)@,
            frontier.workspace_id,
        ).filter(
            |row: MessageTombstoneRow|
                message_tombstone_subsumed(row, frontier.workspace_id, floor_minute),
        ).len(),
{
    let leaf_tombstones = gc_node_tombstones(history, frontier, floor_minute);
    let message_tombstones = gc_message_tombstones(
        messages,
        &frontier.workspace_id,
        floor_minute,
    );
    SubsumedTombstones { leaf_tombstones, message_tombstones }
}

fn gc_node_tombstones(history: &mut HistoryStore, frontier: &Frontier, floor_minute: u64) -> (n:
    usize)
    requires
        old(history).wf(),
    ensures
        final(history).wf(),
        final(history)@ == (HistoryState {
            tombstones: node_tombstones_left(old(history)@.tombstones, *frontier, floor_minute),
            ..old(history)@
        }),
        n == workspace_tombstones(old(history)@, frontier.workspace_id).filter(
            |row: NodeTombstoneRow| node_tombstone_subsumed(row, *frontier, floor_minute),
        ).len(),
{
    let rows = history.list_tombstones_for_workspace(&frontier.workspace_id);
    let ghost gone = |row: NodeTombstoneRow| node_tombstone_subsumed(row, *frontier, floor_minute);
    let ghost start = history@.tombstones;
    let mut n: usize = 0;
    let mut i: usize = 0;
    proof {
        reveal(Seq::filter);
        assert(rows@.take(0).filter(gone) =~= Seq::<NodeTombstoneRow>::empty());
        assert forall|j: int| 0 <= j < rows@.len() implies history@.tombstones.contains_key(
            tombstone_key((#[trigger] rows@[j]).frontier, rows@[j].tombstone_node_id),
        ) by {
            assert(rows@.contains(rows@[j]));
        }
    }
    while i < rows.len()
        invariant
            history.wf(),
            i <= rows@.len(),
            n <= i,
            start == old(history)@.tombstones,
            gone == (|row: NodeTombstoneRow| node_tombstone_subsumed(row, *frontier, floor_minute)),
            n == rows@.take(i as int).filter(gone).len(),
            forall|row: NodeTombstoneRow| #[trigger]
                rows@.contains(row) <==> row.frontier.workspace_id == frontier.workspace_id
                    && start.contains_key(tombstone_key(row.frontier, row.tombstone_node_id))
                    && start[tombstone_key(row.frontier, row.tombstone_node_id)] == row,
            forall|i: int, j: int|
                0 <= i < j < rows@.len() ==> tombstone_key(
                    (#[trigger] rows@[i]).frontier,
                    rows@[i].tombstone_node_id,
                ) != tombstone_key((#[trigger] rows@[j]).frontier, rows@[j].tombstone_node_id),
            history@.nodes == old(history)@.nodes,
            history@.roots == old(history)@.roots,
            forall|k: Seq<u8>| #[trigger]
                history@.tombstones.contains_key(k) ==> start.contains_key(k)
                    && history@.tombstones[k] == start[k],
            forall|k: Seq<u8>| #[trigger]
                start.contains_key(k) && !gone(start[k]) ==> history@.tombstones.contains_key(k),
            forall|j: int|
                i <= j < rows@.len() ==> history@.tombstones.contains_key(
                    tombstone_key((#[trigger] rows@[j]).frontier, rows@[j].tombstone_node_id),
                ),
            forall|j: int|
                0 <= j < i && gone(#[trigger] rows@[j]) ==> !history@.tombstones.contains_key(
                    tombstone_key(rows@[j].frontier, rows@[j].tombstone_node_id),
                ),
        decreases rows.len() - i,
    {
        let row = rows[i];
        let ghost before = history@;
        let ghost key = tombstone_key(row.frontier, row.tombstone_node_id);
        proof {
            assert(rows@.contains(row));
            lemma_filter_len_step(rows@, gone, i as int);
        }
        if id_eq(&row.frontier.removal_frontier_id, &frontier.removal_frontier_id)
            && row.range_start.saturating_add(row.range_width) <= floor_minute {
            assert(row.frontier == *frontier);
            if history.delete_tombstone(&row.frontier, &row.tombstone_node_id) {
                n = n + 1;
            }
        }
        proof {
            assert forall|j: int| i + 1 <= j < rows@.len() implies history@.tombstones.contains_key(
                tombstone_key((#[trigger] rows@[j]).frontier, rows@[j].tombstone_node_id),
            ) by {
                assert(rows@[i as int] == row);
                assert(before.tombstones.contains_key(
                    tombstone_key(rows@[j].frontier, rows@[j].tombstone_node_id),
                ));
            }
            assert forall|j: int| 0 <= j < i + 1 && gone(
                #[trigger] rows@[j],
            ) implies !history@.tombstones.contains_key(
                tombstone_key(rows@[j].frontier, rows@[j].tombstone_node_id),
            ) by {
                if j < i {
                    assert(!before.tombstones.contains_key(
                        tombstone_key(rows@[j].frontier, rows@[j].tombstone_node_id),
                    ));
                }
            }
        }
        i = i + 1;
    }
    proof {
        assert(rows@.take(i as int) =~= rows@);
        let left = node_tombstones_left(start, *frontier, floor_minute);
        assert forall|k: Seq<u8>| #[trigger] history@.tombstones.contains_key(k) implies left.contains_key(
            k,
        ) && left[k] == history@.tombstones[k] by {
            let row = start[k];
            if gone(row) {
                assert(k == tombstone_key(row.frontier, row.tombstone_node_id));
                assert(rows@.contains(row));
                let j = choose|j: int| 0 <= j < rows@.len() && rows@[j] == row;
                assert(gone(rows@[j]));
            }
        }
        assert forall|k: Seq<u8>| #[trigger] left.contains_key(k) implies history@.tombstones.contains_key(
            k,
        ) by {
            assert(start.contains_key(k) && !gone(start[k]));
        }
        assert(history@.tombstones =~= left);
    }
    n
}

fn gc_message_tombstones(
    messages: &mut Table<MessageTombstoneRow>,
    workspace_id: &EventId,
    floor_minute: u64,
) -> (n: usize)
    requires
        old(messages).wf(),
        valid_message_tombstones(old(messages)@),
    ensures
        final(messages).wf(),
        valid_message_tombstones(final(messages)@),
        final(messages)@ == message_tombstones_left(old(messages)@, *workspace_id, floor_minute),
        n == tombstones_of_workspace(old(messages)@, *workspace_id).filter(
            |row: MessageTombstoneRow| message_tombstone_subsumed(row, *workspace_id, floor_minute),
        ).len(),
{
    let rows = list_message_tombstones_for_workspace(messages, workspace_id);
    let ghost gone = |row: MessageTombstoneRow|
        message_tombstone_subsumed(row, *workspace_id, floor_minute);
    let ghost start = messages@;
    let mut n: usize = 0;
    let mut i: usize = 0;
    proof {
        reveal(Seq::filter);
        assert(rows@.take(0).filter(gone) =~= Seq::<MessageTombstoneRow>::empty());
        assert forall|j: int| 0 <= j < rows@.len() implies messages@.contains_key(
            message_key_bytes((#[trigger] rows@[j]).workspace_id, rows@[j].message_id),
        ) by {
            assert(rows@.contains(rows@[j]));
        }
    }
    while i < rows.len()
        invariant
            messages.wf(),
            i <= rows@.len(),
            n <= i,
            start == old(messages)@,
            gone == (|row: MessageTombstoneRow|
                message_tombstone_subsumed(row, *workspace_id, floor_minute)),
            n == rows@.take(i as int).filter(gone).len(),
            forall|row: MessageTombstoneRow| #[trigger]
                rows@.contains(row) <==> row.workspace_id == *workspace_id && start.contains_key(
                    message_key_bytes(row.workspace_id, row.message_id),
                ) && start[message_key_bytes(row.workspace_id, row.message_id)] == row,
            forall|i: int, j: int|
                0 <= i < j < rows@.len() ==> message_key_bytes(
                    (#[trigger] rows@[i]).workspace_id,
                    rows@[i].message_id,
                ) != message_key_bytes((#[trigger] rows@[j]).workspace_id, rows@[j].message_id),
            forall|k: Seq<u8>| #[trigger]
                messages@.contains_key(k) ==> start.contains_key(k) && messages@[k] == start[k],
            forall|k: Seq<u8>| #[trigger]
                start.contains_key(k) && !gone(start[k]) ==> messages@.contains_key(k),
            forall|j: int|
                i <= j < rows@.len() ==> messages@.contains_key(
                    message_key_bytes((#[trigger] rows@[j]).workspace_id, rows@[j].message_id),
                ),
            forall|j: int|
                0 <= j < i && gone(#[trigger] rows@[j]) ==> !messages@.contains_key(
                    message_key_bytes(rows@[j].workspace_id, rows@[j].message_id),
                ),
        decreases rows.len() - i,
    {
        let row = rows[i];
        let ghost before = messages@;
        proof {
            assert(rows@.contains(row));
            lemma_filter_len_step(rows@, gone, i as int);
        }
        if row.authored_minute < floor_minute {
            let key = message_key(&row.workspace_id, &row.message_id);
            if messages.remove(key.as_slice()).is_some() {
                n = n + 1;
            }
        }
        proof {
            assert forall|j: int| i + 1 <= j < rows@.len() implies messages@.contains_key(
                message_key_bytes((#[trigger] rows@[j]).workspace_id, rows@[j].message_id),
            ) by {
                assert(rows@[i as int] == row);
                assert(before.contains_key(
                    message_key_bytes(rows@[j].workspace_id, rows@[j].message_id),
                ));
            }
            assert forall|j: int| 0 <= j < i + 1 && gone(
                #[trigger] rows@[j],
            ) implies !messages@.contains_key(
                message_key_bytes(rows@[j].workspace_id, rows@[j].message_id),
            ) by {
                if j < i {
                    assert(!before.contains_key(
                        message_key_bytes(rows@[j].workspace_id, rows@[j].message_id),
                    ));
                }
            }
        }
        i = i + 1;
    }
    proof {
        assert(rows@.take(i as int) =~= rows@);
        let left = message_tombstones_left(start, *workspace_id, floor_minute);
        assert(valid_message_tombstones(start));
        assert forall|k: Seq<u8>| #[trigger] messages@.contains_key(k) implies left.contains_key(k)
            && left[k] == messages@[k] by {
            let row = start[k];
            if gone(row) {
                assert(k == message_key_bytes(row.workspace_id, row.message_id));
                assert(rows@.contains(row));
                let j = choose|j: int| 0 <= j < rows@.len() && rows@[j] == row;
                assert(gone(rows@[j]));
            }
        }
        assert forall|k: Seq<u8>| #[trigger] left.contains_key(k) implies messages@.contains_key(
            k,
        ) by {
            assert(start.contains_key(k) && !gone(start[k]));
        }
        assert(messages@ =~= left);
    }
    n
}

proof fn lemma_filter_len_step<T>(s: Seq<T>, keep: spec_fn(T) -> bool, i: int)
    requires
        0 <= i < s.len(),
    ensures
        s.take(i + 1).filter(keep).len() == s.take(i).filter(keep).len() + if keep(s[i]) {
            1int
        } else {
            0
        },
{
    reveal(Seq::filter);
    assert(s.take(i + 1).drop_last() =~= s.take(i));
}

/// The widest kept row that the boundary runs through, when there is one.
fn find_top_row(history: &HistoryStore, frontier: &Frontier, floor_minute: u64) -> (r: Option<
    HistoryNodeRow,
>)
    requires
        history.wf(),
    ensures
        r.is_some() == any_crossed(history@, *frontier, floor_minute),
        r matches Some(row) ==> row == top_row(history@, *frontier, floor_minute) && crossed(
            history@,
            *frontier,
            floor_minute,
            row,
        ) && valid_coord(row.coord),
{
    let rows = history.list_for_frontier(frontier);
    let mut best: Option<HistoryNodeRow> = None;
    let mut i: usize = 0;
    while i < rows.len()
        invariant
            history.wf(),
            i <= rows@.len(),
            forall|row: HistoryNodeRow| #[trigger]
                rows@.contains(row) <==> history@.has_row(*frontier, row),
            best.is_none() ==> forall|j: int|
                0 <= j < i ==> !crossed(history@, *frontier, floor_minute, #[trigger] rows@[j]),
            best matches Some(row) ==> crossed(history@, *frontier, floor_minute, row)
                && forall|j: int|
                0 <= j < i && crossed(history@, *frontier, floor_minute, #[trigger] rows@[j])
                    && rows@[j] != row ==> rows@[j].coord.range_width < row.coord.range_width,
        decreases rows.len() - i,
    {
        let row = rows[i];
        assert(rows@.contains(row));
        assert(history@.has_row(*frontier, row));
        assert(valid_coord(row.coord));
        let row_end: u64 = row.coord.range_start + row.coord.range_width;
        if row.coord.bit_depth == TIME_TREE_BIT_DEPTH && row.coord.range_start < floor_minute
            && floor_minute < row_end {
            let take = match &best {
                None => true,
                Some(current) => current.coord.range_width < row.coord.range_width,
            };
            proof {
                if let Some(current) = best {
                    if row.coord.range_width == current.coord.range_width {
                        lemma_crossed_rows_ordered(
                            history@,
                            *frontier,
                            floor_minute,
                            row,
                            current,
                        );
                    }
                }
            }
            if take {
                best = Some(row);
            }
        }
        i = i + 1;
    }
    proof {
        assert forall|other: HistoryNodeRow| #[trigger]
            crossed(history@, *frontier, floor_minute, other) implies (best matches Some(row) && (
        other != row ==> other.coord.range_width < row.coord.range_width)) by {
            assert(rows@.contains(other));
            let j = choose|j: int| 0 <= j < rows@.len() && rows@[j] == other;
            assert(rows@[j] == other);
        }
        if let Some(row) = best {
            assert(is_top_row(history@, *frontier, floor_minute, row));
            let chosen = top_row(history@, *frontier, floor_minute);
            assert(is_top_row(history@, *frontier, floor_minute, chosen));
            assert(crossed(history@, *frontier, floor_minute, chosen));
            assert(crossed(history@, *frontier, floor_minute, row));
        }
    }
    best
}

/// Kept ranges that the boundary runs through differ in width.
pub proof fn lemma_crossed_rows_ordered(
    h: HistoryState,
    f: Frontier,
    floor: u64,
    a: HistoryNodeRow,
    b: HistoryNodeRow,
)
    requires
        valid_history(h),
        crossed(h, f, floor, a),
        crossed(h, f, floor, b),
        a.coord.range_width == b.coord.range_width,
    ensures
        a == b,
{
    lemma_aligned_range(floor as int, a.coord.range_start as int, a.coord.range_width as int);
    lemma_aligned_range(floor as int, b.coord.range_start as int, b.coord.range_width as int);
    assert(valid_coord(a.coord) && valid_coord(b.coord));
    lemma_mask_none(a.coord.event_id_prefix@);
    lemma_mask_none(b.coord.event_id_prefix@);
    lemma_id_ext(a.coord.event_id_prefix, b.coord.event_id_prefix);
    assert(a.coord == b.coord);
}

/// The chop of a vault: the walk along the boundary, then the wipe of the frontier root and of
/// every row that reaches below the floor.
pub open spec fn chop_wiped(v: Vault, f: Frontier, floor: u64) -> (Vault, ChopReport) {
    let w = whole_chop_walk(v, f, floor);
    let roots = root_targets(v.history, f);
    let replacement = chop_replacement(v.history, f);
    let (v1, _, _, purged1) = wiped_upto(w.vault, f, roots, replacement, roots.len() as int);
    let below = rows_below(v1.history, f, floor);
    let (v2, _, _, purged2) = wiped_upto(v1, f, below, replacement, below.len() as int);
    (
        v2,
        ChopReport {
            subtree_tombstones_written: w.subtrees as usize,
            boundary_descend_tombstones_written: w.boundary as usize,
            right_side_siblings_materialized: w.siblings as usize,
            purged_event_bytes: saturated(purged1 + purged2) as usize,
            ..no_chop()
        },
    )
}

/// The vault with the tombstones dropped that a floor subsumes.
pub open spec fn swept(v: Vault, f: Frontier, floor: u64) -> Vault {
    Vault {
        history: HistoryState {
            tombstones: node_tombstones_left(v.history.tombstones, f, floor),
            ..v.history
        },
        ..v
    }
}

/// What a chop does to the vault and to the message tombstones: nothing at floor zero;
/// otherwise the drop of the tombstones that the floor subsumes, then the walk and the wipe,
/// whose own tombstones stay.
pub open spec fn chopped(
    v: Vault,
    messages: Map<Seq<u8>, MessageTombstoneRow>,
    f: Frontier,
    floor: u64,
) -> (Vault, Map<Seq<u8>, MessageTombstoneRow>, ChopReport) {
    if floor == 0 {
        (v, messages, no_chop())
    } else {
        let (after, report) = chop_wiped(swept(v, f, floor), f, floor);
        (
            after,
            message_tombstones_left(messages, f.workspace_id, floor),
            ChopReport {
                subsumed_leaf_tombstones_gcd: workspace_tombstones(
                    v.history,
                    f.workspace_id,
                ).filter(
                    |row: NodeTombstoneRow| node_tombstone_subsumed(row, f, floor),
                ).len() as usize,
                subsumed_message_tombstones_gcd: tombstones_of_workspace(
                    messages,
                    f.workspace_id,
                ).filter(
                    |row: MessageTombstoneRow|
                        message_tombstone_subsumed(row, f.workspace_id, floor),
                ).len() as usize,
                ..report
            },
        )
    }
}

/// Whether a chop stores an event.
pub open spec fn chop_admits(v: Vault, f: Frontier, floor: u64) -> bool {
    floor > 0 && whole_chop_walk(swept(v, f, floor), f, floor).admitted > 0
}

/// Walk the boundary of a chop from a range that can be split or is a single minute. Gives the
/// number of stored events.
fn walk_boundary(
    history: &mut HistoryStore,
    events: &mut EventStore,
    frontier: &Frontier,
    floor_minute: u64,
    source: &DerivationSource,
    report: &mut ChopReport,
) -> (admitted: usize)
    requires
        old(history).wf(),
        old(events).wf(),
        source.coord.range_width > 1 ==> splittable(source.coord),
        *old(report) == no_chop(),
    ensures
        final(history).wf(),
        final(events).wf(),
        ({
            let end = chop_walk(
                chop_at(vault(*old(history), *old(events)), *source),
                *frontier,
                floor_minute,
            );
            &&& vault(*final(history), *final(events)) == end.vault
            &&& *final(report) == (ChopReport {
                subtree_tombstones_written: end.subtrees as usize,
                boundary_descend_tombstones_written: end.boundary as usize,
                right_side_siblings_materialized: end.siblings as usize,
                ..no_chop()
            })
            &&& 0 <= end.subtrees <= 63
            &&& 0 <= end.boundary <= 63
            &&& 0 <= end.siblings <= 63
            &&& admitted == end.admitted
        }),
{
    let mut current = *source;
    let mut admitted: usize = 0;
    let ghost start = chop_at(vault(*history, *events), current);
    proof {
        if source.coord.range_width > 1 {
            lemma_halvings_bound(source.coord.range_width as nat);
        }
    }
    while current.coord.range_width > 1 && current.coord.range_start < floor_minute
        && current.coord.range_start + current.coord.range_width > floor_minute
        invariant
            history.wf(),
            events.wf(),
            current.coord.range_width > 1 ==> splittable(current.coord),
            halvings(current.coord.range_width as nat) + report.boundary_descend_tombstones_written
                <= 63,
            report.subtree_tombstones_written <= report.boundary_descend_tombstones_written,
            report.right_side_siblings_materialized <= report.boundary_descend_tombstones_written,
            admitted <= 2 * report.boundary_descend_tombstones_written,
            *report == (ChopReport {
                subtree_tombstones_written: report.subtree_tombstones_written,
                boundary_descend_tombstones_written: report.boundary_descend_tombstones_written,
                right_side_siblings_materialized: report.right_side_siblings_materialized,
                ..no_chop()
            }),
            chop_walk(start, *frontier, floor_minute) == chop_walk(
                (ChopWalk {
                    vault: vault(*history, *events),
                    src: current,
                    subtrees: report.subtree_tombstones_written as int,
                    boundary: report.boundary_descend_tombstones_written as int,
                    siblings: report.right_side_siblings_materialized as int,
                    admitted: admitted as int,
                }),
                *frontier,
                floor_minute,
            ),
        decreases current.coord.range_width,
    {
        let ghost before = ChopWalk {
            vault: vault(*history, *events),
            src: current,
            subtrees: report.subtree_tombstones_written as int,
            boundary: report.boundary_descend_tombstones_written as int,
            siblings: report.right_side_siblings_materialized as int,
            admitted: admitted as int,
        };
        proof {
            lemma_half_valid(current.coord, 0);
            lemma_half_valid(current.coord, 1);
        }
        let half: u64 = current.coord.range_width / 2;
        let mid: u64 = current.coord.range_start + half;
        report.boundary_descend_tombstones_written = report.boundary_descend_tombstones_written + 1;
        if floor_minute >= mid {
            let left = ensure_time_split(history, events, frontier, &current, 0u8);
            report.subtree_tombstones_written = report.subtree_tombstones_written + 1;
            let right = ensure_time_split(history, events, frontier, &current, 1u8);
            admitted = admitted + left.admitted_events + right.admitted_events;
            current = DerivationSource {
                secret_id: right.row_event_id,
                secret: right.row_secret,
                coord: make_time_coord(mid, half),
            };
        } else {
            let right = ensure_time_split(history, events, frontier, &current, 1u8);
            if right.materialized_new_row {
                report.right_side_siblings_materialized = report.right_side_siblings_materialized
                    + 1;
            }
            let left = ensure_time_split(history, events, frontier, &current, 0u8);
            admitted = admitted + right.admitted_events + left.admitted_events;
            current = DerivationSource {
                secret_id: left.row_event_id,
                secret: left.row_secret,
                coord: make_time_coord(current.coord.range_start, half),
            };
        }
        proof {
            let after = ChopWalk {
                vault: vault(*history, *events),
                src: current,
                subtrees: report.subtree_tombstones_written as int,
                boundary: report.boundary_descend_tombstones_written as int,
                siblings: report.right_side_siblings_materialized as int,
                admitted: admitted as int,
            };
            assert(after == chop_step(before, *frontier, floor_minute));
        }
    }
    admitted
}

/// Take every minute below a floor off the time axis. The tombstones that the floor subsumes
/// are dropped. The boundary is walked from the frontier root, or else from the widest kept
/// range that it runs through, so that each subtree below the floor and each right half above
/// it has a row. Then the root and every row that reaches below the floor are wiped, and the
/// subtrees leave a tombstone each; what starts at the floor or above it stays. Tells beside the
/// report whether an event was stored.
pub fn chop_time_tree_prefix(
    history: &mut HistoryStore,
    events: &mut EventStore,
    messages: &mut Table<MessageTombstoneRow>,
    frontier: Frontier,
    floor_minute: u64,
) -> (r: (ChopReport, bool))
    requires
        old(history).wf(),
        old(events).wf(),
        old(messages).wf(),
        valid_message_tombstones(old(messages)@),
    ensures
        final(history).wf(),
        final(events).wf(),
        final(messages).wf(),
        valid_message_tombstones(final(messages)@),
        (vault(*final(history), *final(events)), final(messages)@, r.0) == chopped(
            vault(*old(history), *old(events)),
            old(messages)@,
            frontier,
            floor_minute,
        ),
        r.1 == chop_admits(vault(*old(history), *old(events)), frontier, floor_minute),
{
    let mut report = ChopReport::default();
    if floor_minute == 0 {
        return (report, false);
    }
    let mut admitted: usize = 0;
    let subsumed = gc_subsumed_tombstones(history, messages, &frontier, floor_minute);
    let ghost v = vault(*history, *events);
    assert(v == swept(vault(*old(history), *old(events)), frontier, floor_minute));
    let mut roots: Vec<WipeTarget> = Vec::new();
    let mut replacement: Option<EventId> = None;
    if let Some(root_row) = history.root(&frontier) {
        let root = source_of_root(&root_row);
        if !id_is_zero(&root.secret_id) {
            replacement = Some(root.secret_id);
        }
        roots.push(
            WipeTarget { event_id: root.secret_id, coord: root.coord, is_frontier_root: true },
        );
        proof {
            lemma_root_splittable();
        }
        admitted = walk_boundary(history, events, &frontier, floor_minute, &root, &mut report);
    } else if let Some(row) = find_top_row(history, &frontier, floor_minute) {
        let source = source_of_row(&row);
        admitted = walk_boundary(history, events, &frontier, floor_minute, &source, &mut report);
    }
    assert(roots@ =~= root_targets(v.history, frontier));
    let root_tally = wipe_targets(history, events, &frontier, &roots, replacement);
    let below = list_rows_below(history, &frontier, floor_minute);
    let tally = wipe_targets(history, events, &frontier, &below, replacement);
    report.purged_event_bytes = root_tally.purged.saturating_add(tally.purged);
    assert((vault(*history, *events), report) == chop_wiped(v, frontier, floor_minute));
    report.subsumed_leaf_tombstones_gcd = subsumed.leaf_tombstones;
    report.subsumed_message_tombstones_gcd = subsumed.message_tombstones;
    (report, admitted > 0)
}

} // verus!
