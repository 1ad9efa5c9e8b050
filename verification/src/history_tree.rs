//! Walks over the history tree: deriving the leaf of an event, retiring a leaf, and
//! chopping the minutes below a floor.
use vstd::prelude::*;
use crate::bytes::{id_eq, id_is_zero, id_with, lemma_id_of, zero_bytes, EventId};
use crate::event_store::{EventRow, EventState, EventStore};
use crate::events::saturated;
use crate::history::{
    bit_at, bit_of, closer, coord_covers, derive_time_secret, derive_trie_secret, diverges_at,
    encode_node, first_diverging_bit, half_coord, leaf_coord, lemma_aligned_range,
    lemma_covers_ordered, lemma_half_range, lemma_half_valid, lemma_mask_full, lemma_mask_mask,
    lemma_mask_none, lemma_no_prefix, lemma_root_splittable, lemma_sibling_off_path,
    make_leaf_coord, make_node_row, make_time_child, make_time_coord, make_trie_child, mask_bits,
    mask_prefix_to_depth, node_bytes, node_row, range_start_of, root_source, row_source,
    sibling_bits, sibling_prefix_at_depth, side_of, source_of_root, source_of_row, splittable,
    time_child, time_coord, time_split_secret, trie_child, trie_split_secret, valid_coord, Coord,
    DerivationSource, Frontier, HistoryNodeRow, NodeTombstoneRow, TIME_TREE_BIT_DEPTH,
    TIME_TREE_ROOT_WIDTH, TRIE_LEAF_BIT_DEPTH,
};
use crate::history_store::{
    frontier_key, frontier_rows, node_key, tombstone_key, valid_history, HistoryState, HistoryStore,
};
use crate::text::text;
use crate::types::{EventRecord, EventScope, EventStatus};
use crate::unblocking::{unblock_dependents, unblocked};

verus! {

/// Minutes per milliseconds: the width of a minute.
pub const UNIX_MINUTE_MS: u64 = 60_000;

/// The unix minute of a timestamp in milliseconds.
pub fn unix_minute_for(created_at_ms: u64) -> (m: u64)
    ensures
        m == created_at_ms as int / 60_000,
        m < TIME_TREE_ROOT_WIDTH,
{
    created_at_ms / UNIX_MINUTE_MS
}

/// The kept rows and the stored events together.
#[verifier::ext_equal]
pub struct Vault {
    pub history: HistoryState,
    pub events: EventState,
}

/// The kept rows and the stored events together.
pub open spec fn vault(history: HistoryStore, events: EventStore) -> Vault {
    Vault { history: history@, events: events@ }
}

/// The stored event behind a node row.
pub open spec fn node_event(row: HistoryNodeRow) -> EventRow {
    EventRow {
        timestamp: 0,
        status: EventStatus::Applied,
        scope: EventScope::Local,
        workspace_id: Some(row.frontier.workspace_id),
        canonical_bytes: node_bytes(
            row.frontier,
            row.source_secret_id,
            row.coord,
            row.node_secret,
        ),
    }
}

/// The store with a local event applied, unless its id is known: what waits for the event is
/// released.
pub open spec fn event_applied(s: EventState, id: Seq<u8>, row: EventRow) -> EventState {
    if s.events.contains_key(id) {
        s
    } else {
        unblocked(s.with_event(id, row), id)
    }
}

/// The vault with a node admitted: its event applied unless its id is known, its row kept
/// unless its place is taken.
pub open spec fn admitted(v: Vault, row: HistoryNodeRow) -> Vault {
    Vault {
        history: HistoryState {
            nodes: if v.history.keeps(row.frontier, row.coord) {
                v.history.nodes
            } else {
                v.history.nodes.insert(node_key(row.frontier, row.coord), row)
            },
            ..v.history
        },
        events: event_applied(v.events, row.local_history_node_secret_id@, node_event(row)),
    }
}

/// How many events the admission of a node stores.
pub open spec fn admitted_events(v: Vault, row: HistoryNodeRow) -> int {
    if v.events.events.contains_key(row.local_history_node_secret_id@) {
        0
    } else {
        1
    }
}

/// The id of a row is the id of its event.
pub open spec fn self_named(row: HistoryNodeRow) -> bool {
    row == node_row(row.frontier, row.source_secret_id, row.coord, row.node_secret)
}

/// Admit a node: store its event and keep its row. Gives the number of new events.
fn admit_node(history: &mut HistoryStore, events: &mut EventStore, row: HistoryNodeRow) -> (n:
    usize)
    requires
        old(history).wf(),
        old(events).wf(),
        valid_coord(row.coord),
        self_named(row),
    ensures
        final(history).wf(),
        final(events).wf(),
        vault(*final(history), *final(events)) == admitted(vault(*old(history), *old(events)), row),
        n == admitted_events(vault(*old(history), *old(events)), row),
{
    let bytes = encode_node(
        &row.frontier,
        &row.source_secret_id,
        &row.coord,
        &row.node_secret,
    );
    let record = EventRecord {
        timestamp: 0,
        body_len: bytes.len(),
        canonical_bytes: bytes,
        dependencies: vec![row.source_secret_id],
        workspace_id: Some(row.frontier.workspace_id),
        scope: EventScope::Local,
    };
    let new_event = events.insert_event(&record, EventStatus::Applied);
    let _ = history.insert_node(row);
    if new_event {
        let _ = unblock_dependents(events, &row.local_history_node_secret_id);
        1
    } else {
        0
    }
}

/// What became of a child that a walk needs.
#[derive(Debug, Clone, Copy, PartialEq, Eq)]
pub struct EnsureSplitOutcome {
    pub row_event_id: EventId,
    pub row_secret: EventId,
    pub admitted_events: usize,
    pub materialized_new_row: bool,
}

/// The vault with a child in place: the kept row at its coordinate, or else the given
/// row admitted.
pub open spec fn ensured(v: Vault, row: HistoryNodeRow) -> (Vault, EnsureSplitOutcome) {
    if v.history.keeps(row.frontier, row.coord) {
        let kept = v.history.node(row.frontier, row.coord);
        (
            v,
            EnsureSplitOutcome {
                row_event_id: kept.local_history_node_secret_id,
                row_secret: kept.node_secret,
                admitted_events: 0,
                materialized_new_row: false,
            },
        )
    } else {
        (
            admitted(v, row),
            EnsureSplitOutcome {
                row_event_id: row.local_history_node_secret_id,
                row_secret: row.node_secret,
                admitted_events: admitted_events(v, row) as usize,
                materialized_new_row: true,
            },
        )
    }
}

/// Make sure that one half of a range has a row.
pub(crate) fn ensure_time_split(
    history: &mut HistoryStore,
    events: &mut EventStore,
    frontier: &Frontier,
    parent: &DerivationSource,
    side: u8,
) -> (r: EnsureSplitOutcome)
    requires
        old(history).wf(),
        old(events).wf(),
        splittable(parent.coord),
        side == 0 || side == 1,
    ensures
        final(history).wf(),
        final(events).wf(),
        (vault(*final(history), *final(events)), r) == ensured(
            vault(*old(history), *old(events)),
            time_child(*frontier, *parent, side),
        ),
{
    let half: u64 = parent.coord.range_width / 2;
    let start: u64 = if side == 0 {
        parent.coord.range_start
    } else {
        parent.coord.range_start + half
    };
    let child = make_time_coord(start, half);
    if let Some(existing) = history.node(frontier, &child) {
        return EnsureSplitOutcome {
            row_event_id: existing.local_history_node_secret_id,
            row_secret: existing.node_secret,
            admitted_events: 0,
            materialized_new_row: false,
        };
    }
    let row = make_time_child(frontier, parent, side);
    proof {
        lemma_half_valid(parent.coord, side);
    }
    let n = admit_node(history, events, row);
    EnsureSplitOutcome {
        row_event_id: row.local_history_node_secret_id,
        row_secret: row.node_secret,
        admitted_events: n,
        materialized_new_row: true,
    }
}

/// Make sure that a trie node has a row.
fn ensure_trie_split(
    history: &mut HistoryStore,
    events: &mut EventStore,
    frontier: &Frontier,
    parent: &DerivationSource,
    side: u8,
    child: &Coord,
) -> (r: EnsureSplitOutcome)
    requires
        old(history).wf(),
        old(events).wf(),
        valid_coord(*child),
    ensures
        final(history).wf(),
        final(events).wf(),
        (vault(*final(history), *final(events)), r) == ensured(
            vault(*old(history), *old(events)),
            trie_child(*frontier, *parent, side, *child),
        ),
{
    if let Some(existing) = history.node(frontier, child) {
        return EnsureSplitOutcome {
            row_event_id: existing.local_history_node_secret_id,
            row_secret: existing.node_secret,
            admitted_events: 0,
            materialized_new_row: false,
        };
    }
    let row = make_trie_child(frontier, parent, side, child);
    let n = admit_node(history, events, row);
    EnsureSplitOutcome {
        row_event_id: row.local_history_node_secret_id,
        row_secret: row.node_secret,
        admitted_events: n,
        materialized_new_row: true,
    }
}

// ---------------------------------------------------------------------------
// Deriving a leaf
// ---------------------------------------------------------------------------

/// Whether a kept row covers a leaf.
fn covers(row: &HistoryNodeRow, unix_minute: u64, event_id_in_minute: &EventId) -> (r: bool)
    requires
        valid_coord(row.coord),
    ensures
        r == coord_covers(row.coord, unix_minute, *event_id_in_minute),
{
    let row_end: u64 = row.coord.range_start.saturating_add(row.coord.range_width);
    if unix_minute < row.coord.range_start || unix_minute >= row_end {
        return false;
    }
    proof {
        lemma_mask_none(event_id_in_minute@);
        lemma_mask_none(row.coord.event_id_prefix@);
        lemma_mask_full(event_id_in_minute@);
    }
    if row.coord.bit_depth == TIME_TREE_BIT_DEPTH {
        return true;
    }
    if row.coord.bit_depth >= TRIE_LEAF_BIT_DEPTH {
        return id_eq(&row.coord.event_id_prefix, event_id_in_minute);
    }
    let masked = mask_prefix_to_depth(*event_id_in_minute, row.coord.bit_depth);
    id_eq(&masked, &row.coord.event_id_prefix)
}

/// Whether a row lies strictly closer to the leaves than another node.
fn more_specific_than(row: &HistoryNodeRow, current: &Coord) -> (r: bool)
    ensures
        r == closer(row.coord, *current),
{
    if row.coord.range_width < current.range_width {
        return true;
    }
    if row.coord.range_width > current.range_width {
        return false;
    }
    row.coord.bit_depth > current.bit_depth
}

/// Some kept row covers a leaf.
pub open spec fn covered(h: HistoryState, f: Frontier, minute: u64, event_id_in_minute: EventId) -> bool {
    exists|row: HistoryNodeRow| #[trigger]
        h.has_row(f, row) && coord_covers(row.coord, minute, event_id_in_minute)
}

/// `row` is the kept row that covers a leaf and lies closest to it.
pub open spec fn is_closest(
    h: HistoryState,
    f: Frontier,
    minute: u64,
    event_id_in_minute: EventId,
    row: HistoryNodeRow,
) -> bool {
    &&& h.has_row(f, row)
    &&& coord_covers(row.coord, minute, event_id_in_minute)
    &&& forall|other: HistoryNodeRow| #[trigger]
        h.has_row(f, other) && coord_covers(other.coord, minute, event_id_in_minute) && other != row
            ==> closer(row.coord, other.coord)
}

/// The kept row that covers a leaf and lies closest to it.
pub open spec fn closest(
    h: HistoryState,
    f: Frontier,
    minute: u64,
    event_id_in_minute: EventId,
) -> HistoryNodeRow {
    choose|row: HistoryNodeRow| is_closest(h, f, minute, event_id_in_minute, row)
}

/// There is at most one closest row.
pub proof fn lemma_closest_unique(
    h: HistoryState,
    f: Frontier,
    minute: u64,
    event_id_in_minute: EventId,
    row: HistoryNodeRow,
)
    requires
        is_closest(h, f, minute, event_id_in_minute, row),
    ensures
        closest(h, f, minute, event_id_in_minute) == row,
{
    let other = closest(h, f, minute, event_id_in_minute);
    assert(is_closest(h, f, minute, event_id_in_minute, other));
    if other != row {
        assert(closer(row.coord, other.coord));
        assert(closer(other.coord, row.coord));
    }
}

/// The kept row that covers a leaf and lies closest to it.
fn closest_kept_row(
    history: &HistoryStore,
    frontier: &Frontier,
    unix_minute: u64,
    event_id_in_minute: &EventId,
) -> (r: Option<HistoryNodeRow>)
    requires
        history.wf(),
    ensures
        r.is_some() == covered(history@, *frontier, unix_minute, *event_id_in_minute),
        r matches Some(row) ==> is_closest(
            history@,
            *frontier,
            unix_minute,
            *event_id_in_minute,
            row,
        ) && row == closest(history@, *frontier, unix_minute, *event_id_in_minute) && valid_coord(
            row.coord,
        ),
{
    let rows = history.list_for_frontier(frontier);
    let mut best: Option<HistoryNodeRow> = None;
    let mut i: usize = 0;
    while i < rows.len()
        invariant
            history.wf(),
            i <= rows@.len(),
            forall|row: HistoryNodeRow| #[trigger]
                rows@.contains(row) <==> history@.has_row(*frontier, row),
            best.is_none() ==> forall|j: int|
                0 <= j < i ==> !coord_covers(
                    (#[trigger] rows@[j]).coord,
                    unix_minute,
                    *event_id_in_minute,
                ),
            best matches Some(row) ==> history@.has_row(*frontier, row) && coord_covers(
                row.coord,
                unix_minute,
                *event_id_in_minute,
            ) && forall|j: int|
                0 <= j < i && coord_covers(
                    (#[trigger] rows@[j]).coord,
                    unix_minute,
                    *event_id_in_minute,
                ) && rows@[j] != row ==> closer(row.coord, rows@[j].coord),
        decreases rows.len() - i,
    {
        let row = rows[i];
        assert(rows@.contains(row));
        assert(history@.has_row(*frontier, row));
        assert(valid_coord(row.coord));
        if covers(&row, unix_minute, event_id_in_minute) {
            let take = match &best {
                None => true,
                Some(current) => more_specific_than(&row, &current.coord),
            };
            proof {
                if let Some(current) = best {
                    assert(valid_coord(current.coord));
                    lemma_covers_ordered(
                        row.coord,
                        current.coord,
                        unix_minute,
                        *event_id_in_minute,
                    );
                }
            }
            if take {
                best = Some(row);
            }
        }
        i = i + 1;
    }
    proof {
        match best {
            None => {
                assert forall|row: HistoryNodeRow| #[trigger]
                    history@.has_row(*frontier, row) implies !coord_covers(
                    row.coord,
                    unix_minute,
                    *event_id_in_minute,
                ) by {
                    assert(rows@.contains(row));
                    let j = choose|j: int| 0 <= j < rows@.len() && rows@[j] == row;
                    assert(rows@[j] == row);
                }
            },
            Some(row) => {
                assert forall|other: HistoryNodeRow| #[trigger]
                    history@.has_row(*frontier, other) && coord_covers(
                        other.coord,
                        unix_minute,
                        *event_id_in_minute,
                    ) && other != row implies closer(row.coord, other.coord) by {
                    assert(rows@.contains(other));
                    let j = choose|j: int| 0 <= j < rows@.len() && rows@[j] == other;
                    assert(rows@[j] == other);
                }
                lemma_closest_unique(
                    history@,
                    *frontier,
                    unix_minute,
                    *event_id_in_minute,
                    row,
                );
            },
        }
    }
    best
}

/// One half of a range as a source, its secret derived in memory.
pub open spec fn half_source(src: DerivationSource, minute: u64) -> DerivationSource {
    let side = side_of(src.coord, minute);
    DerivationSource {
        secret_id: src.secret_id,
        secret: time_split_secret(src, side, half_coord(src.coord, side)),
        coord: half_coord(src.coord, side),
    }
}

/// The node of a minute as a source, its secret derived in memory from a range that
/// holds the minute.
pub open spec fn minute_source(src: DerivationSource, minute: u64) -> DerivationSource
    decreases src.coord.range_width,
{
    if src.coord.range_width <= 1 {
        src
    } else {
        minute_source(half_source(src, minute), minute)
    }
}

/// A range that holds a minute, at the place that the minute and the width name.
pub open spec fn on_time_path(c: Coord, minute: u64) -> bool {
    &&& splittable(c) || (c.range_width == 1 && c.range_start < TIME_TREE_ROOT_WIDTH)
    &&& c.range_start == range_start_of(minute as int, c.range_width as int)
}

/// The half that holds the minute is on the path again.
pub proof fn lemma_path_step(c: Coord, minute: u64)
    requires
        on_time_path(c, minute),
        c.range_width > 1,
    ensures
        on_time_path(half_coord(c, side_of(c, minute)), minute),
        valid_coord(half_coord(c, side_of(c, minute))),
        half_coord(c, side_of(c, minute)).range_width == c.range_width / 2,
        c.range_start <= minute < c.range_start + c.range_width,
{
    lemma_half_range(minute as int, c.range_width as int);
    lemma_half_valid(c, side_of(c, minute));
}

/// Walk in memory from a range that holds a minute down to the node of the minute.
fn descend_time_axis_in_memory(root: &DerivationSource, target_minute: u64) -> (r:
    DerivationSource)
    requires
        on_time_path(root.coord, target_minute),
    ensures
        r == minute_source(*root, target_minute),
        root.coord.range_width > 1 ==> r.coord == time_coord(target_minute, 1),
{
    let mut current = *root;
    while current.coord.range_width > 1
        invariant
            on_time_path(current.coord, target_minute),
            minute_source(current, target_minute) == minute_source(*root, target_minute),
            root.coord.range_width > 1 && current.coord.range_width <= 1 ==> current.coord
                == time_coord(target_minute, 1),
        decreases current.coord.range_width,
    {
        proof {
            lemma_path_step(current.coord, target_minute);
        }
        let half: u64 = current.coord.range_width / 2;
        let mid: u64 = current.coord.range_start + half;
        let (side, start): (u8, u64) = if target_minute < mid {
            (0u8, current.coord.range_start)
        } else {
            (1u8, mid)
        };
        let child = make_time_coord(start, half);
        let secret = derive_time_secret(&current, side, &child);
        let ghost before = current;
        current = DerivationSource { secret_id: current.secret_id, secret, coord: child };
        assert(current == half_source(before, target_minute));
    }
    current
}

/// The secret of a leaf, derived from a node that covers it.
pub open spec fn leaf_secret(
    src: DerivationSource,
    minute: u64,
    event_id_in_minute: EventId,
) -> EventId {
    let node = minute_source(src, minute);
    trie_split_secret(
        node,
        bit_of(event_id_in_minute@, node.coord.bit_depth as int),
        leaf_coord(minute, event_id_in_minute),
    )
}

/// The vault with the ranges between a kept range and a minute admitted, the minute node
/// at the end of them as a source, and the number of stored events.
pub open spec fn time_path(v: Vault, f: Frontier, src: DerivationSource, minute: u64) -> (
    Vault,
    DerivationSource,
    int,
)
    decreases src.coord.range_width,
{
    if src.coord.range_width <= 1 {
        (v, src, 0)
    } else {
        let row = time_child(f, src, side_of(src.coord, minute));
        let (v1, end, n) = time_path(admitted(v, row), f, row_source(row), minute);
        (v1, end, n + admitted_events(v, row))
    }
}

/// What deriving a leaf that is not kept does to the vault: the kept leaf row, the vault
/// after, and the number of stored events. `src` is the closest kept row, or else the
/// frontier root.
pub open spec fn leaf_derived(
    v: Vault,
    f: Frontier,
    minute: u64,
    event_id_in_minute: EventId,
) -> (Vault, HistoryNodeRow, int) {
    let leaf = leaf_coord(minute, event_id_in_minute);
    if covered(v.history, f, minute, event_id_in_minute) {
        let src = row_source(closest(v.history, f, minute, event_id_in_minute));
        let (v1, node, n) = time_path(v, f, src, minute);
        let row = trie_child(
            f,
            node,
            bit_of(event_id_in_minute@, node.coord.bit_depth as int),
            leaf,
        );
        (admitted(v1, row), row, n + admitted_events(v1, row))
    } else {
        let src = root_source(v.history.root(f));
        let row = node_row(f, src.secret_id, leaf, leaf_secret(src, minute, event_id_in_minute));
        (admitted(v, row), row, admitted_events(v, row))
    }
}

/// Walking with admitted rows and walking in memory derive the same secrets.
proof fn lemma_time_path_secret(
    v: Vault,
    f: Frontier,
    src: DerivationSource,
    other: DerivationSource,
    minute: u64,
)
    requires
        src.secret == other.secret,
        src.coord == other.coord,
    ensures
        time_path(v, f, src, minute).1.secret == minute_source(other, minute).secret,
        time_path(v, f, src, minute).1.coord == minute_source(other, minute).coord,
    decreases src.coord.range_width,
{
    if src.coord.range_width > 1 {
        let row = time_child(f, src, side_of(src.coord, minute));
        lemma_time_path_secret(
            admitted(v, row),
            f,
            row_source(row),
            half_source(other, minute),
            minute,
        );
    }
}

/// Deriving a leaf gives it the secret that the closest kept node, or else the frontier
/// root, derives in memory.
pub proof fn law_derived_leaf_secret(
    v: Vault,
    f: Frontier,
    minute: u64,
    event_id_in_minute: EventId,
)
    ensures
        leaf_derived(v, f, minute, event_id_in_minute).1.node_secret == leaf_secret(
            if covered(v.history, f, minute, event_id_in_minute) {
                row_source(closest(v.history, f, minute, event_id_in_minute))
            } else {
                root_source(v.history.root(f))
            },
            minute,
            event_id_in_minute,
        ),
{
    let src = row_source(closest(v.history, f, minute, event_id_in_minute));
    lemma_time_path_secret(v, f, src, src, minute);
}

/// The result of deriving a leaf.
#[derive(Debug, Clone, Copy, PartialEq, Eq)]
pub struct DeriveEventLeafReport {
    pub local_history_node_secret_id: Option<EventId>,
    pub leaf_node_secret: Option<EventId>,
    pub admitted_events: usize,
}

/// How many halvings lead from a width to a single minute.
pub open spec fn halvings(w: nat) -> nat
    decreases w,
{
    if w <= 1 {
        0
    } else {
        1 + halvings(w / 2)
    }
}

/// Narrower ranges are fewer halvings away from a minute.
pub proof fn lemma_halvings_bound(w: nat)
    requires
        w <= TIME_TREE_ROOT_WIDTH,
    ensures
        halvings(w) <= 63,
{
    reveal_with_fuel(halvings, 65);
}

/// Admit the ranges between a kept range and a minute.
fn admit_time_path(
    history: &mut HistoryStore,
    events: &mut EventStore,
    frontier: &Frontier,
    source: &DerivationSource,
    unix_minute: u64,
) -> (r: (DerivationSource, usize))
    requires
        old(history).wf(),
        old(events).wf(),
        on_time_path(source.coord, unix_minute),
    ensures
        final(history).wf(),
        final(events).wf(),
        (vault(*final(history), *final(events)), r.0, r.1 as int) == time_path(
            vault(*old(history), *old(events)),
            *frontier,
            *source,
            unix_minute,
        ),
        r.1 <= 63,
        source.coord.range_width > 1 ==> r.0.coord == time_coord(unix_minute, 1),
{
    let mut current = *source;
    let mut count: usize = 0;
    proof {
        lemma_halvings_bound(source.coord.range_width as nat);
    }
    while current.coord.range_width > 1
        invariant
            history.wf(),
            events.wf(),
            on_time_path(current.coord, unix_minute),
            halvings(current.coord.range_width as nat) + count <= 63,
            source.coord.range_width > 1 && current.coord.range_width <= 1 ==> current.coord
                == time_coord(unix_minute, 1),
            ({
                let whole = time_path(
                    vault(*old(history), *old(events)),
                    *frontier,
                    *source,
                    unix_minute,
                );
                let rest = time_path(vault(*history, *events), *frontier, current, unix_minute);
                whole == (rest.0, rest.1, rest.2 + count)
            }),
        decreases current.coord.range_width,
    {
        proof {
            lemma_path_step(current.coord, unix_minute);
        }
        let half: u64 = current.coord.range_width / 2;
        let mid: u64 = current.coord.range_start + half;
        let side: u8 = if unix_minute < mid {
            0u8
        } else {
            1u8
        };
        let row = make_time_child(frontier, &current, side);
        let n = admit_node(history, events, row);
        count = count + n;
        current = source_of_row(&row);
    }
    (current, count)
}

/// The vault and the report after a leaf is derived or found, or why it cannot be.
pub open spec fn leaf_outcome(
    v: Vault,
    frontier: Frontier,
    created_at_ms: u64,
    event_id_in_minute: EventId,
) -> Result<(Vault, DeriveEventLeafReport), Seq<char>> {
    let minute = (created_at_ms as int / 60_000) as u64;
    let leaf = leaf_coord(minute, event_id_in_minute);
    if event_id_in_minute@ == zero_bytes() {
        Err("derive_event_leaf requires non-zero event_id_in_minute"@)
    } else if v.history.keeps(frontier, leaf) {
        let row = v.history.node(frontier, leaf);
        Ok(
            (
                v,
                DeriveEventLeafReport {
                    local_history_node_secret_id: Some(row.local_history_node_secret_id),
                    leaf_node_secret: Some(row.node_secret),
                    admitted_events: 0,
                },
            ),
        )
    } else if covered(v.history, frontier, minute, event_id_in_minute) || v.history.has_root(
        frontier,
    ) {
        let (after, row, n) = leaf_derived(v, frontier, minute, event_id_in_minute);
        Ok(
            (
                after,
                DeriveEventLeafReport {
                    local_history_node_secret_id: Some(row.local_history_node_secret_id),
                    leaf_node_secret: Some(row.node_secret),
                    admitted_events: n as usize,
                },
            ),
        )
    } else {
        Err(
            "no retained ancestor covers the target leaf: F is wiped and no sibling row covers this coordinate"@,
        )
    }
}

/// Derive the leaf of an event, or find it: the closest kept node above it, or else the
/// frontier root, gives its secret, and its row is kept. Fails on the zero coordinate,
/// and where the root is wiped and no kept row covers the leaf.
pub fn derive_event_leaf(
    history: &mut HistoryStore,
    events: &mut EventStore,
    frontier: Frontier,
    created_at_ms: u64,
    event_id_in_minute: EventId,
) -> (r: Result<DeriveEventLeafReport, String>)
    requires
        old(history).wf(),
        old(events).wf(),
    ensures
        final(history).wf(),
        final(events).wf(),
        match leaf_outcome(
            vault(*old(history), *old(events)),
            frontier,
            created_at_ms,
            event_id_in_minute,
        ) {
            Ok((v, report)) => {
                &&& vault(*final(history), *final(events)) == v
                &&& r == Ok::<DeriveEventLeafReport, String>(report)
                &&& report.admitted_events <= 64
            },
            Err(e) => {
                &&& vault(*final(history), *final(events)) == vault(*old(history), *old(events))
                &&& r matches Err(x) && x@ == e
            },
        },
{
    if id_is_zero(&event_id_in_minute) {
        return Err(text("derive_event_leaf requires non-zero event_id_in_minute"));
    }
    let unix_minute = unix_minute_for(created_at_ms);
    let leaf = make_leaf_coord(unix_minute, event_id_in_minute);
    if let Some(existing) = history.node(&frontier, &leaf) {
        return Ok(
            DeriveEventLeafReport {
                local_history_node_secret_id: Some(existing.local_history_node_secret_id),
                leaf_node_secret: Some(existing.node_secret),
                admitted_events: 0,
            },
        );
    }
    let ghost v = vault(*history, *events);
    proof {
        lemma_leaf_valid(unix_minute, event_id_in_minute);
    }
    match closest_kept_row(history, &frontier, unix_minute, &event_id_in_minute) {
        Some(ancestor) => {
            proof {
                lemma_closest_on_path(v.history, frontier, unix_minute, event_id_in_minute);
            }
            let source = source_of_row(&ancestor);
            let (node, path_events) = if ancestor.coord.range_width == 1 {
                (source, 0usize)
            } else {
                admit_time_path(history, events, &frontier, &source, unix_minute)
            };
            let side = bit_at(&event_id_in_minute, node.coord.bit_depth);
            let row = make_trie_child(&frontier, &node, side, &leaf);
            let n = admit_node(history, events, row);
            Ok(
                DeriveEventLeafReport {
                    local_history_node_secret_id: Some(row.local_history_node_secret_id),
                    leaf_node_secret: Some(row.node_secret),
                    admitted_events: path_events + n,
                },
            )
        },
        None => {
            match history.root(&frontier) {
                Some(root) => {
                    let source = source_of_root(&root);
                    proof {
                        lemma_root_splittable();
                        assert(range_start_of(unix_minute as int, TIME_TREE_ROOT_WIDTH as int)
                            == 0) by (nonlinear_arith)
                            requires
                                unix_minute < TIME_TREE_ROOT_WIDTH,
                                range_start_of(unix_minute as int, TIME_TREE_ROOT_WIDTH as int)
                                    == unix_minute as int - unix_minute as int
                                    % TIME_TREE_ROOT_WIDTH as int,
                        ;
                    }
                    let node = descend_time_axis_in_memory(&source, unix_minute);
                    let side = bit_at(&event_id_in_minute, node.coord.bit_depth);
                    let secret = derive_trie_secret(&node, side, &leaf);
                    let row = make_node_row(&frontier, &source.secret_id, &leaf, &secret);
                    let n = admit_node(history, events, row);
                    Ok(
                        DeriveEventLeafReport {
                            local_history_node_secret_id: Some(row.local_history_node_secret_id),
                            leaf_node_secret: Some(secret),
                            admitted_events: n,
                        },
                    )
                },
                None => Err(
                    text(
                        "no retained ancestor covers the target leaf: F is wiped and no sibling row covers this coordinate",
                    ),
                ),
            }
        },
    }
}

/// A leaf is a place that a row can have.
proof fn lemma_leaf_valid(minute: u64, event_id_in_minute: EventId)
    requires
        minute < TIME_TREE_ROOT_WIDTH,
    ensures
        valid_coord(leaf_coord(minute, event_id_in_minute)),
{
    lemma_mask_full(event_id_in_minute@);
}

/// The closest kept row lies on the path of the leaf, and is no leaf itself when the leaf
/// is not kept.
proof fn lemma_closest_on_path(
    h: HistoryState,
    f: Frontier,
    minute: u64,
    event_id_in_minute: EventId,
)
    requires
        valid_history(h),
        covered(h, f, minute, event_id_in_minute),
        !h.keeps(f, leaf_coord(minute, event_id_in_minute)),
        is_closest(
            h,
            f,
            minute,
            event_id_in_minute,
            closest(h, f, minute, event_id_in_minute),
        ),
    ensures
        on_time_path(closest(h, f, minute, event_id_in_minute).coord, minute),
        closest(h, f, minute, event_id_in_minute).coord.bit_depth < 256,
        closest(h, f, minute, event_id_in_minute).coord.range_width > 1 ==> closest(
            h,
            f,
            minute,
            event_id_in_minute,
        ).coord.bit_depth == 0,
{
    let c = closest(h, f, minute, event_id_in_minute).coord;
    assert(valid_coord(c));
    lemma_aligned_range(minute as int, c.range_start as int, c.range_width as int);
    if c.bit_depth == 256 {
        lemma_mask_full(event_id_in_minute@);
        crate::bytes::lemma_id_ext(c.event_id_prefix, event_id_in_minute);
        assert(c == leaf_coord(minute, event_id_in_minute));
    }
}

// ---------------------------------------------------------------------------
// Retiring a leaf
// ---------------------------------------------------------------------------

/// A row that a walk wipes when it is done.
#[derive(Debug, Clone, Copy, PartialEq, Eq)]
pub struct WipeTarget {
    pub event_id: EventId,
    pub coord: Coord,
    /// The row is the frontier root.
    pub is_frontier_root: bool,
}

/// What a wipe counted.
#[derive(Debug, Clone, Copy, PartialEq, Eq)]
pub struct WipeTally {
    /// Rows that were there and are gone.
    pub wiped: usize,
    /// Tombstones that are new.
    pub tombstones: usize,
    /// Events whose bytes are gone.
    pub purged: usize,
}

/// The tombstone that a wiped row leaves behind.
pub open spec fn tombstone_of(
    f: Frontier,
    target: WipeTarget,
    replacement: Option<EventId>,
) -> NodeTombstoneRow {
    NodeTombstoneRow {
        frontier: f,
        tombstone_node_id: target.event_id,
        replacement_node_id: match replacement {
            Some(id) => id,
            None => target.event_id,
        },
        range_start: target.coord.range_start,
        range_width: target.coord.range_width,
    }
}

/// The vault with one row wiped: row and event gone, a tombstone in their place.
pub open spec fn wiped_one(
    v: Vault,
    f: Frontier,
    target: WipeTarget,
    replacement: Option<EventId>,
) -> Vault {
    let row = tombstone_of(f, target, replacement);
    let key = tombstone_key(f, target.event_id);
    Vault {
        history: HistoryState {
            nodes: if target.is_frontier_root {
                v.history.nodes
            } else {
                v.history.nodes.remove(node_key(f, target.coord))
            },
            roots: if target.is_frontier_root {
                v.history.roots.remove(frontier_key(f))
            } else {
                v.history.roots
            },
            tombstones: if v.history.tombstones.contains_key(key) {
                v.history.tombstones
            } else {
                v.history.tombstones.insert(key, row)
            },
        },
        events: v.events.purged(target.event_id@),
    }
}

/// Whether the row that a wipe names is there.
pub open spec fn target_kept(v: Vault, f: Frontier, target: WipeTarget) -> bool {
    if target.is_frontier_root {
        v.history.has_root(f)
    } else {
        v.history.keeps(f, target.coord)
    }
}

/// The vault and the counts after the first `n` rows are wiped.
pub open spec fn wiped_upto(
    v: Vault,
    f: Frontier,
    targets: Seq<WipeTarget>,
    replacement: Option<EventId>,
    n: int,
) -> (Vault, int, int, int)
    decreases n,
{
    if n <= 0 {
        (v, 0, 0, 0)
    } else {
        let (w, wiped, tombstones, purged) = wiped_upto(v, f, targets, replacement, n - 1);
        let t = targets[n - 1];
        (
            wiped_one(w, f, t, replacement),
            wiped + if target_kept(w, f, t) {
                1int
            } else {
                0
            },
            tombstones + if w.history.tombstones.contains_key(tombstone_key(f, t.event_id)) {
                0int
            } else {
                1
            },
            purged + if w.events.events.contains_key(t.event_id@) {
                1int
            } else {
                0
            },
        )
    }
}

/// Wipe the rows of a path: delete each row, purge its event, and leave a tombstone.
pub(crate) fn wipe_targets(
    history: &mut HistoryStore,
    events: &mut EventStore,
    frontier: &Frontier,
    targets: &Vec<WipeTarget>,
    replacement: Option<EventId>,
) -> (tally: WipeTally)
    requires
        old(history).wf(),
        old(events).wf(),
    ensures
        final(history).wf(),
        final(events).wf(),
        (
            vault(*final(history), *final(events)),
            tally.wiped as int,
            tally.tombstones as int,
            tally.purged as int,
        ) == wiped_upto(
            vault(*old(history), *old(events)),
            *frontier,
            targets@,
            replacement,
            targets@.len() as int,
        ),
        tally.wiped <= targets@.len(),
        tally.tombstones <= targets@.len(),
        tally.purged <= targets@.len(),
{
    let mut tally = WipeTally { wiped: 0, tombstones: 0, purged: 0 };
    let mut i: usize = 0;
    while i < targets.len()
        invariant
            history.wf(),
            events.wf(),
            i <= targets@.len(),
            tally.wiped <= i,
            tally.tombstones <= i,
            tally.purged <= i,
            (
                vault(*history, *events),
                tally.wiped as int,
                tally.tombstones as int,
                tally.purged as int,
            ) == wiped_upto(
                vault(*old(history), *old(events)),
                *frontier,
                targets@,
                replacement,
                i as int,
            ),
        decreases targets.len() - i,
    {
        let target = targets[i];
        let ghost before = vault(*history, *events);
        let gone = if target.is_frontier_root {
            history.delete_root(frontier)
        } else {
            history.delete_node(frontier, &target.coord)
        };
        if gone {
            tally.wiped = tally.wiped + 1;
        }
        if events.purge_event(&target.event_id) {
            tally.purged = tally.purged + 1;
        }
        let row = NodeTombstoneRow {
            frontier: *frontier,
            tombstone_node_id: target.event_id,
            replacement_node_id: match replacement {
                Some(id) => id,
                None => target.event_id,
            },
            range_start: target.coord.range_start,
            range_width: target.coord.range_width,
        };
        if history.insert_tombstone(row) {
            tally.tombstones = tally.tombstones + 1;
        }
        proof {
            assert(vault(*history, *events) =~= wiped_one(before, *frontier, target, replacement));
        }
        i = i + 1;
    }
    tally
}

/// A retire walk on its way: the vault, the node that it stands on, the rows to wipe,
/// and what it counted.
pub struct RetireWalk {
    pub vault: Vault,
    pub src: DerivationSource,
    pub path: Seq<WipeTarget>,
    pub admitted: int,
    pub materialized: int,
}

/// How many rows a split materialized.
pub open spec fn new_rows(o: EnsureSplitOutcome) -> int {
    if o.materialized_new_row {
        1
    } else {
        0
    }
}

/// One step down the time axis: both halves get a row, the one without the target only
/// while it is wider than a minute; the half with the target is to be wiped.
pub open spec fn retire_time_step(w: RetireWalk, f: Frontier, minute: u64) -> RetireWalk {
    let side = side_of(w.src.coord, minute);
    let child = half_coord(w.src.coord, side);
    let (v1, descend) = ensured(w.vault, time_child(f, w.src, side));
    let target = WipeTarget { event_id: descend.row_event_id, coord: child, is_frontier_root: false };
    let (v2, admitted, rows) = if child.range_width > 1 {
        let (v2, sibling) = ensured(v1, time_child(f, w.src, (1 - side) as u8));
        (v2, sibling.admitted_events as int, new_rows(sibling))
    } else {
        (v1, 0int, 0int)
    };
    RetireWalk {
        vault: v2,
        src: DerivationSource {
            secret_id: descend.row_event_id,
            secret: descend.row_secret,
            coord: child,
        },
        path: w.path.push(target),
        admitted: w.admitted + descend.admitted_events + admitted,
        materialized: w.materialized + new_rows(descend) + rows,
    }
}

/// The walk down the time axis to the minute.
pub open spec fn retire_time_walk(w: RetireWalk, f: Frontier, minute: u64) -> RetireWalk
    decreases w.src.coord.range_width,
{
    if w.src.coord.range_width <= 1 {
        w
    } else {
        retire_time_walk(retire_time_step(w, f, minute), f, minute)
    }
}

/// A place in the trie of a minute.
pub open spec fn trie_coord(minute: u64, depth: u16, prefix: Seq<u8>) -> Coord {
    Coord { range_start: minute, range_width: 1, bit_depth: depth, event_id_prefix: id_with(prefix) }
}

/// One step down the trie, to a depth where the target parts from a surviving leaf: both
/// sides get a row, and the one of the target is to be wiped.
pub open spec fn retire_trie_step(
    w: RetireWalk,
    f: Frontier,
    minute: u64,
    leaf: EventId,
    depth: u16,
) -> RetireWalk {
    if depth <= w.src.coord.bit_depth {
        w
    } else {
        let side = bit_of(leaf@, depth - 1);
        let child = trie_coord(minute, depth, mask_bits(leaf@, depth as int));
        let other = trie_coord(minute, depth, sibling_bits(leaf@, depth as int));
        let (v1, descend) = ensured(w.vault, trie_child(f, w.src, side, child));
        let (v2, sibling) = ensured(v1, trie_child(f, w.src, (1 - side) as u8, other));
        let target = WipeTarget {
            event_id: descend.row_event_id,
            coord: child,
            is_frontier_root: false,
        };
        RetireWalk {
            vault: v2,
            src: DerivationSource {
                secret_id: descend.row_event_id,
                secret: descend.row_secret,
                coord: child,
            },
            path: w.path.push(target),
            admitted: w.admitted + descend.admitted_events + sibling.admitted_events,
            materialized: w.materialized + new_rows(descend) + new_rows(sibling),
        }
    }
}

/// The walk down the trie, after its first `n` depths.
pub open spec fn retire_trie_walk(
    w: RetireWalk,
    f: Frontier,
    minute: u64,
    leaf: EventId,
    depths: Seq<u16>,
    n: int,
) -> RetireWalk
    decreases n,
{
    if n <= 0 {
        w
    } else {
        retire_trie_step(
            retire_trie_walk(w, f, minute, leaf, depths, n - 1),
            f,
            minute,
            leaf,
            depths[n - 1],
        )
    }
}

/// A kept leaf of the minute parts from the target at a depth.
pub open spec fn parts_at(
    h: HistoryState,
    f: Frontier,
    minute: u64,
    leaf: EventId,
    depth: u16,
) -> bool {
    exists|row: HistoryNodeRow| #[trigger]
        h.has_row(f, row) && row.coord.bit_depth == 256 && row.coord.range_start == minute
            && row.coord.event_id_prefix != leaf && diverges_at(
            leaf@,
            row.coord.event_id_prefix@,
            depth as int,
        )
}

/// Depths in strictly ascending order.
pub open spec fn ascending_depths(s: Seq<u16>) -> bool {
    forall|i: int, j: int| 0 <= i < j < s.len() ==> s[i] < s[j]
}

/// `s` holds exactly the depths at which the target parts from a kept leaf, in ascending
/// order.
pub open spec fn is_divergence(
    h: HistoryState,
    f: Frontier,
    minute: u64,
    leaf: EventId,
    s: Seq<u16>,
) -> bool {
    &&& ascending_depths(s)
    &&& forall|d: u16| #[trigger] s.contains(d) <==> parts_at(h, f, minute, leaf, d)
}

/// The depths at which the target parts from a kept leaf, in ascending order.
pub open spec fn divergence_depths(
    h: HistoryState,
    f: Frontier,
    minute: u64,
    leaf: EventId,
) -> Seq<u16> {
    choose|s: Seq<u16>| is_divergence(h, f, minute, leaf, s)
}

/// An ascending sequence is known by what it holds.
proof fn lemma_depths_unique(a: Seq<u16>, b: Seq<u16>)
    requires
        ascending_depths(a),
        ascending_depths(b),
        forall|d: u16| #[trigger] a.contains(d) <==> b.contains(d),
    ensures
        a == b,
    decreases a.len(),
{
    if a.len() == 0 {
        if b.len() > 0 {
            assert(b.contains(b[0]));
            assert(a.contains(b[0]));
        }
        assert(a =~= b);
    } else {
        let last = a.last();
        assert(a.contains(last));
        assert(b.contains(last));
        assert(b.contains(b.last()));
        assert(a.contains(b.last()));
        let i = choose|i: int| 0 <= i < b.len() && b[i] == last;
        let j = choose|j: int| 0 <= j < a.len() && a[j] == b.last();
        assert(b.last() == last);
        let (a1, b1) = (a.drop_last(), b.drop_last());
        assert forall|d: u16| #[trigger] a1.contains(d) <==> b1.contains(d) by {
            if a1.contains(d) {
                let x = choose|x: int| 0 <= x < a1.len() && a1[x] == d;
                assert(a[x] == d && a[x] < last);
                assert(a.contains(d));
                assert(b.contains(d));
                let y = choose|y: int| 0 <= y < b.len() && b[y] == d;
                assert(b1[y] == d);
            }
            if b1.contains(d) {
                let x = choose|x: int| 0 <= x < b1.len() && b1[x] == d;
                assert(b[x] == d && b[x] < last);
                assert(b.contains(d));
                assert(a.contains(d));
                let y = choose|y: int| 0 <= y < a.len() && a[y] == d;
                assert(a1[y] == d);
            }
        }
        lemma_depths_unique(a1, b1);
        assert(a =~= a1.push(last));
        assert(b =~= b1.push(last));
    }
}

/// Put a depth in its place, once.
fn insert_depth(depths: &mut Vec<u16>, depth: u16)
    requires
        ascending_depths(old(depths)@),
    ensures
        ascending_depths(final(depths)@),
        forall|d: u16| #[trigger]
            final(depths)@.contains(d) <==> old(depths)@.contains(d) || d == depth,
{
    let mut at: usize = 0;
    while at < depths.len() && depths[at] < depth
        invariant
            at <= depths@.len(),
            depths@ == old(depths)@,
            forall|i: int| 0 <= i < at ==> depths@[i] < depth,
        decreases depths.len() - at,
    {
        at = at + 1;
    }
    if at < depths.len() && depths[at] == depth {
        assert(depths@.contains(depth));
        return;
    }
    let ghost before = depths@;
    depths.insert(at, depth);
    proof {
        let s = depths@;
        assert forall|i: int, j: int| 0 <= i < j < s.len() implies s[i] < s[j] by {
            let i0 = if i < at {
                i
            } else {
                i - 1
            };
            let j0 = if j < at {
                j
            } else {
                j - 1
            };
            if i != at && j != at {
                assert(s[i] == before[i0] && s[j] == before[j0]);
            } else if i == at {
                assert(s[j] == before[j0]);
                assert(before[at as int] <= before[j0]);
            }
        }
        assert forall|d: u16| #[trigger] s.contains(d) <==> before.contains(d) || d == depth by {
            if s.contains(d) && d != depth {
                let i = choose|i: int| 0 <= i < s.len() && s[i] == d;
                let i0 = if i < at {
                    i
                } else {
                    i - 1
                };
                assert(before[i0] == d);
            }
            if before.contains(d) {
                let i = choose|i: int| 0 <= i < before.len() && before[i] == d;
                let i1 = if i < at {
                    i
                } else {
                    i + 1
                };
                assert(s[i1] == d);
            }
            assert(s[at as int] == depth);
        }
    }
}

/// The depths at which the target parts from a kept leaf of its minute.
fn find_divergence_depths(
    history: &HistoryStore,
    frontier: &Frontier,
    unix_minute: u64,
    leaf: &EventId,
) -> (depths: Vec<u16>)
    requires
        history.wf(),
    ensures
        depths@ == divergence_depths(history@, *frontier, unix_minute, *leaf),
        is_divergence(history@, *frontier, unix_minute, *leaf, depths@),
{
    let rows = history.list_for_frontier(frontier);
    let mut depths: Vec<u16> = Vec::new();
    let mut i: usize = 0;
    while i < rows.len()
        invariant
            history.wf(),
            i <= rows@.len(),
            forall|row: HistoryNodeRow| #[trigger]
                rows@.contains(row) <==> history@.has_row(*frontier, row),
            ascending_depths(depths@),
            forall|d: u16| #[trigger]
                depths@.contains(d) ==> parts_at(history@, *frontier, unix_minute, *leaf, d),
            forall|j: int, d: u16|
                0 <= j < i && (#[trigger] rows@[j]).coord.bit_depth == 256
                    && rows@[j].coord.range_start == unix_minute && rows@[j].coord.event_id_prefix
                    != *leaf && #[trigger] diverges_at(
                    leaf@,
                    rows@[j].coord.event_id_prefix@,
                    d as int,
                ) ==> depths@.contains(d),
        decreases rows.len() - i,
    {
        let row = rows[i];
        let ghost before = depths@;
        assert(rows@.contains(row));
        assert(history@.has_row(*frontier, row));
        if row.coord.bit_depth == TRIE_LEAF_BIT_DEPTH && row.coord.range_start == unix_minute
            && !id_eq(&row.coord.event_id_prefix, leaf) {
            let depth = first_diverging_bit(leaf, &row.coord.event_id_prefix);
            insert_depth(&mut depths, depth);
            proof {
                assert(parts_at(history@, *frontier, unix_minute, *leaf, depth));
                assert forall|d: u16| #[trigger]
                    diverges_at(leaf@, row.coord.event_id_prefix@, d as int) implies d == depth by {
                    lemma_diverges_once(
                        leaf@,
                        row.coord.event_id_prefix@,
                        d as int,
                        depth as int,
                    );
                }
                assert(depths@.contains(depth));
                assert forall|d: u16| before.contains(d) implies #[trigger] depths@.contains(d) by {
                }
            }
        }
        i = i + 1;
    }
    proof {
        assert forall|d: u16| #[trigger] depths@.contains(d) <==> parts_at(
            history@,
            *frontier,
            unix_minute,
            *leaf,
            d,
        ) by {
            if parts_at(history@, *frontier, unix_minute, *leaf, d) {
                let row = choose|row: HistoryNodeRow| #[trigger]
                    history@.has_row(*frontier, row) && row.coord.bit_depth == 256
                        && row.coord.range_start == unix_minute && row.coord.event_id_prefix
                        != *leaf && diverges_at(
                        leaf@,
                        row.coord.event_id_prefix@,
                        d as int,
                    );
                assert(rows@.contains(row));
                let j = choose|j: int| 0 <= j < rows@.len() && rows@[j] == row;
                assert(rows@[j].coord.bit_depth == 256);
            }
        }
        let s = divergence_depths(history@, *frontier, unix_minute, *leaf);
        assert(is_divergence(history@, *frontier, unix_minute, *leaf, depths@));
        assert(is_divergence(history@, *frontier, unix_minute, *leaf, s));
        lemma_depths_unique(depths@, s);
    }
    depths
}

/// Two coordinates part at one depth only.
proof fn lemma_diverges_once(a: Seq<u8>, b: Seq<u8>, d: int, e: int)
    requires
        a.len() == 32,
        b.len() == 32,
        diverges_at(a, b, d),
        diverges_at(a, b, e),
    ensures
        d == e,
{
    if d < e {
        lemma_mask_mask(a, e - 1, d);
        lemma_mask_mask(b, e - 1, d);
    } else if e < d {
        lemma_mask_mask(a, d - 1, e);
        lemma_mask_mask(b, d - 1, e);
    }
}

/// A kept row that a leaf could be derived from; the row of the leaf itself is none.
pub open spec fn lies_above(
    h: HistoryState,
    f: Frontier,
    minute: u64,
    leaf: EventId,
    row: HistoryNodeRow,
) -> bool {
    h.has_row(f, row) && row.coord.bit_depth < 256 && coord_covers(row.coord, minute, leaf)
}

/// `row` is the kept row above a leaf that lies furthest from it.
pub open spec fn is_furthest(
    h: HistoryState,
    f: Frontier,
    minute: u64,
    leaf: EventId,
    row: HistoryNodeRow,
) -> bool {
    &&& lies_above(h, f, minute, leaf, row)
    &&& forall|other: HistoryNodeRow| #[trigger]
        lies_above(h, f, minute, leaf, other) && other != row ==> closer(other.coord, row.coord)
}

/// The kept row above a leaf that lies furthest from it.
pub open spec fn furthest(h: HistoryState, f: Frontier, minute: u64, leaf: EventId) -> HistoryNodeRow {
    choose|row: HistoryNodeRow| is_furthest(h, f, minute, leaf, row)
}

/// Some kept row lies above a leaf.
pub open spec fn any_above(h: HistoryState, f: Frontier, minute: u64, leaf: EventId) -> bool {
    exists|row: HistoryNodeRow| lies_above(h, f, minute, leaf, row)
}

/// There is at most one furthest row.
proof fn lemma_furthest_unique(
    h: HistoryState,
    f: Frontier,
    minute: u64,
    leaf: EventId,
    row: HistoryNodeRow,
)
    requires
        is_furthest(h, f, minute, leaf, row),
    ensures
        furthest(h, f, minute, leaf) == row,
{
    let other = furthest(h, f, minute, leaf);
    assert(is_furthest(h, f, minute, leaf, other));
    if other != row {
        assert(closer(other.coord, row.coord));
        assert(closer(row.coord, other.coord));
    }
}

/// The kept row above a leaf that lies furthest from it, when there is one.
fn furthest_kept_row(history: &HistoryStore, frontier: &Frontier, minute: u64, leaf: &EventId) -> (r:
    Option<HistoryNodeRow>)
    requires
        history.wf(),
    ensures
        r.is_some() == any_above(history@, *frontier, minute, *leaf),
        r matches Some(row) ==> is_furthest(history@, *frontier, minute, *leaf, row) && row
            == furthest(history@, *frontier, minute, *leaf) && valid_coord(row.coord),
{
    let rows = history.list_for_frontier(frontier);
    let mut best: Option<HistoryNodeRow> = None;
    let mut i: usize = 0;
    while i < rows.len()
        invariant
            history.wf(),
            i <= rows@.len(),
            forall|row: HistoryNodeRow| #[trigger]
                rows@.contains(row) <==> history@.has_row(*frontier, row),
            best.is_none() ==> forall|j: int|
                0 <= j < i ==> !lies_above(
                    history@,
                    *frontier,
                    minute,
                    *leaf,
                    #[trigger] rows@[j],
                ),
            best matches Some(row) ==> lies_above(history@, *frontier, minute, *leaf, row)
                && forall|j: int|
                0 <= j < i && lies_above(history@, *frontier, minute, *leaf, #[trigger] rows@[j])
                    && rows@[j] != row ==> closer(rows@[j].coord, row.coord),
        decreases rows.len() - i,
    {
        let row = rows[i];
        assert(rows@.contains(row));
        assert(history@.has_row(*frontier, row));
        assert(valid_coord(row.coord));
        if row.coord.bit_depth < TRIE_LEAF_BIT_DEPTH && covers(&row, minute, leaf) {
            let take = match &best {
                None => true,
                Some(current) => more_specific_than(current, &row.coord),
            };
            proof {
                if let Some(current) = best {
                    assert(valid_coord(current.coord));
                    lemma_covers_ordered(row.coord, current.coord, minute, *leaf);
                }
            }
            if take {
                best = Some(row);
            }
        }
        i = i + 1;
    }
    proof {
        assert forall|other: HistoryNodeRow| #[trigger]
            lies_above(history@, *frontier, minute, *leaf, other) implies (best matches Some(row)
            && (other != row ==> closer(other.coord, row.coord))) by {
            assert(rows@.contains(other));
            let j = choose|j: int| 0 <= j < rows@.len() && rows@[j] == other;
            assert(rows@[j] == other);
        }
        if let Some(row) = best {
            lemma_furthest_unique(history@, *frontier, minute, *leaf, row);
        }
    }
    best
}

/// The wipe of a kept row.
pub open spec fn row_target(row: HistoryNodeRow) -> WipeTarget {
    WipeTarget {
        event_id: row.local_history_node_secret_id,
        coord: row.coord,
        is_frontier_root: false,
    }
}

/// The wipes of some kept rows of a frontier, in the order of their keys.
pub open spec fn targets_where(
    h: HistoryState,
    f: Frontier,
    keep: spec_fn(HistoryNodeRow) -> bool,
) -> Seq<WipeTarget> {
    frontier_rows(h, f).filter(keep).map_values(|row: HistoryNodeRow| row_target(row))
}

/// The wipes of the kept rows above a leaf, in the order of their keys.
pub open spec fn rows_above(h: HistoryState, f: Frontier, minute: u64, leaf: EventId) -> Seq<
    WipeTarget,
> {
    targets_where(
        h,
        f,
        |row: HistoryNodeRow| row.coord.bit_depth < 256 && coord_covers(row.coord, minute, leaf),
    )
}

fn list_rows_above(history: &HistoryStore, frontier: &Frontier, minute: u64, leaf: &EventId) -> (r:
    Vec<WipeTarget>)
    requires
        history.wf(),
    ensures
        r@ == rows_above(history@, *frontier, minute, *leaf),
{
    let rows = history.list_for_frontier(frontier);
    let ghost keep = |row: HistoryNodeRow|
        row.coord.bit_depth < 256 && coord_covers(row.coord, minute, *leaf);
    let ghost wipe = |row: HistoryNodeRow| row_target(row);
    let mut out: Vec<WipeTarget> = Vec::new();
    let mut i: usize = 0;
    proof {
        reveal(Seq::filter);
        assert(out@ =~= rows@.take(0).filter(keep).map_values(wipe));
    }
    while i < rows.len()
        invariant
            history.wf(),
            i <= rows@.len(),
            forall|row: HistoryNodeRow| #[trigger]
                rows@.contains(row) <==> history@.has_row(*frontier, row),
            keep == (|row: HistoryNodeRow|
                row.coord.bit_depth < 256 && coord_covers(row.coord, minute, *leaf)),
            wipe == (|row: HistoryNodeRow| row_target(row)),
            out@ == rows@.take(i as int).filter(keep).map_values(wipe),
        decreases rows.len() - i,
    {
        let row = rows[i];
        proof {
            reveal(Seq::filter);
            assert(rows@.take(i + 1).drop_last() =~= rows@.take(i as int));
            assert(rows@.take(i + 1).last() == rows@[i as int]);
            assert(rows@.contains(row));
            assert(history@.has_row(*frontier, row));
            assert(valid_coord(row.coord));
        }
        let ghost before = rows@.take(i as int).filter(keep);
        if row.coord.bit_depth < TRIE_LEAF_BIT_DEPTH && covers(&row, minute, leaf) {
            out.push(
                WipeTarget {
                    event_id: row.local_history_node_secret_id,
                    coord: row.coord,
                    is_frontier_root: false,
                },
            );
            assert(before.push(row).map_values(wipe) =~= before.map_values(wipe).push(
                row_target(row),
            ));
        }
        i = i + 1;
    }
    assert(rows@.take(i as int) =~= rows@);
    out
}

/// Where the walk of a retirement starts: at the frontier root; without it, at the kept row
/// above the leaf that lies furthest from it; nowhere when there is none.
pub open spec fn retire_start(v: Vault, f: Frontier, minute: u64, leaf: EventId) -> Option<
    RetireWalk,
> {
    if v.history.has_root(f) {
        let src = root_source(v.history.root(f));
        Some(
            RetireWalk {
                vault: v,
                src,
                path: seq![
                    WipeTarget {
                        event_id: src.secret_id,
                        coord: src.coord,
                        is_frontier_root: true,
                    },
                ],
                admitted: 0,
                materialized: 0,
            },
        )
    } else if any_above(v.history, f, minute, leaf) {
        let row = furthest(v.history, f, minute, leaf);
        Some(
            RetireWalk {
                vault: v,
                src: row_source(row),
                path: seq![row_target(row)],
                admitted: 0,
                materialized: 0,
            },
        )
    } else {
        None
    }
}

/// The whole walk of a retirement: from its start down the time axis and down the trie.
pub open spec fn retire_walk(v: Vault, f: Frontier, minute: u64, leaf: EventId) -> RetireWalk {
    match retire_start(v, f, minute, leaf) {
        Some(start) => {
            let w = retire_time_walk(start, f, minute);
            let depths = divergence_depths(w.vault.history, f, minute, leaf);
            retire_trie_walk(w, f, minute, leaf, depths, depths.len() as int)
        },
        None => RetireWalk {
            vault: v,
            src: root_source(v.history.root(f)),
            path: Seq::empty(),
            admitted: 0,
            materialized: 0,
        },
    }
}

/// The result of retiring a leaf.
#[derive(Debug, Clone, Copy, PartialEq, Eq)]
pub struct RetireDeletedEventLeafReport {
    pub leaf_id: Option<EventId>,
    pub admitted_events: usize,
    pub purged_event_bytes: usize,
    pub materialized_internal_rows: usize,
    /// Rows on the path to the leaf, the frontier root among them, that were wiped.
    pub wiped_path_rows: usize,
    /// Tombstones that are new.
    pub tombstones_written: usize,
}

impl Default for RetireDeletedEventLeafReport {
    fn default() -> (r: RetireDeletedEventLeafReport)
        ensures
            r == no_retirement(),
    {
        RetireDeletedEventLeafReport {
            leaf_id: None,
            admitted_events: 0,
            purged_event_bytes: 0,
            materialized_internal_rows: 0,
            wiped_path_rows: 0,
            tombstones_written: 0,
        }
    }
}

/// The report of a retirement that found no leaf.
pub open spec fn no_retirement() -> RetireDeletedEventLeafReport {
    RetireDeletedEventLeafReport {
        leaf_id: None,
        admitted_events: 0,
        purged_event_bytes: 0,
        materialized_internal_rows: 0,
        wiped_path_rows: 0,
        tombstones_written: 0,
    }
}

/// What retiring a leaf does: the walk, then the wipe of its path, of every row above the leaf
/// that is still kept, and of the leaf.
pub open spec fn retired(v: Vault, f: Frontier, minute: u64, leaf: EventId) -> (
    Vault,
    RetireDeletedEventLeafReport,
) {
    let place = leaf_coord(minute, leaf);
    if v.history.keeps(f, place) {
        let leaf_id = v.history.node(f, place).local_history_node_secret_id;
        let w = retire_walk(v, f, minute, leaf);
        let (v1, wiped1, tombstones1, purged1) = wiped_upto(
            w.vault,
            f,
            w.path,
            Some(leaf_id),
            w.path.len() as int,
        );
        let above = rows_above(v1.history, f, minute, leaf);
        let (v2, wiped2, tombstones2, purged2) = wiped_upto(
            v1,
            f,
            above,
            Some(leaf_id),
            above.len() as int,
        );
        let last = seq![WipeTarget { event_id: leaf_id, coord: place, is_frontier_root: false }];
        let (v3, _, tombstones3, purged3) = wiped_upto(v2, f, last, Some(leaf_id), 1);
        (
            v3,
            RetireDeletedEventLeafReport {
                leaf_id: Some(leaf_id),
                admitted_events: w.admitted as usize,
                purged_event_bytes: saturated(purged1 + purged2 + purged3) as usize,
                materialized_internal_rows: w.materialized as usize,
                wiped_path_rows: saturated(wiped1 + wiped2) as usize,
                tombstones_written: saturated(tombstones1 + tombstones2 + tombstones3) as usize,
            },
        )
    } else {
        (v, no_retirement())
    }
}

/// The walk down the time axis: every range on the way to the minute gets a row that is
/// wiped later, and the other half of each, when it is wider than a minute, a row that
/// stays.
fn walk_time_for_retire(
    history: &mut HistoryStore,
    events: &mut EventStore,
    frontier: &Frontier,
    unix_minute: u64,
    root: &DerivationSource,
    path: &mut Vec<WipeTarget>,
    report: &mut RetireDeletedEventLeafReport,
) -> (node: DerivationSource)
    requires
        old(history).wf(),
        old(events).wf(),
        unix_minute < TIME_TREE_ROOT_WIDTH,
        on_time_path(root.coord, unix_minute),
        root.coord.range_width > 1 ==> root.coord == time_coord(
            root.coord.range_start,
            root.coord.range_width,
        ),
        root.coord.bit_depth < 256,
        old(path)@.len() == 1,
        old(report).admitted_events == 0,
        old(report).materialized_internal_rows == 0,
    ensures
        final(history).wf(),
        final(events).wf(),
        (RetireWalk {
            vault: vault(*final(history), *final(events)),
            src: node,
            path: final(path)@,
            admitted: final(report).admitted_events as int,
            materialized: final(report).materialized_internal_rows as int,
        }) == retire_time_walk(
            (RetireWalk {
                vault: vault(*old(history), *old(events)),
                src: *root,
                path: old(path)@,
                admitted: 0,
                materialized: 0,
            }),
            *frontier,
            unix_minute,
        ),
        *final(report) == (RetireDeletedEventLeafReport {
            admitted_events: final(report).admitted_events,
            materialized_internal_rows: final(report).materialized_internal_rows,
            ..*old(report)
        }),
        final(path)@.len() <= 64,
        final(report).admitted_events <= 126,
        final(report).materialized_internal_rows <= 126,
        node.coord.range_start == unix_minute,
        node.coord.range_width == 1,
        node.coord.bit_depth < 256,
{
    let mut current = *root;
    proof {
        lemma_halvings_bound(root.coord.range_width as nat);
    }
    while current.coord.range_width > 1
        invariant
            history.wf(),
            events.wf(),
            on_time_path(current.coord, unix_minute),
            halvings(current.coord.range_width as nat) + path@.len() <= 64,
            report.admitted_events <= 2 * (path@.len() - 1),
            report.materialized_internal_rows <= 2 * (path@.len() - 1),
            path@.len() >= 1,
            *report == (RetireDeletedEventLeafReport {
                admitted_events: report.admitted_events,
                materialized_internal_rows: report.materialized_internal_rows,
                ..*old(report)
            }),
            current.coord.bit_depth < 256,
            current.coord.range_width > 1 ==> current.coord == time_coord(
                current.coord.range_start,
                current.coord.range_width,
            ),
            retire_time_walk(
                (RetireWalk {
                    vault: vault(*history, *events),
                    src: current,
                    path: path@,
                    admitted: report.admitted_events as int,
                    materialized: report.materialized_internal_rows as int,
                }),
                *frontier,
                unix_minute,
            ) == retire_time_walk(
                (RetireWalk {
                    vault: vault(*old(history), *old(events)),
                    src: *root,
                    path: old(path)@,
                    admitted: 0,
                    materialized: 0,
                }),
                *frontier,
                unix_minute,
            ),
        decreases current.coord.range_width,
    {
        let ghost before = RetireWalk {
            vault: vault(*history, *events),
            src: current,
            path: path@,
            admitted: report.admitted_events as int,
            materialized: report.materialized_internal_rows as int,
        };
        proof {
            lemma_path_step(current.coord, unix_minute);
        }
        let half: u64 = current.coord.range_width / 2;
        let mid: u64 = current.coord.range_start + half;
        let (side, other, start): (u8, u8, u64) = if unix_minute < mid {
            (0u8, 1u8, current.coord.range_start)
        } else {
            (1u8, 0u8, mid)
        };
        let descend = ensure_time_split(history, events, frontier, &current, side);
        report.admitted_events = report.admitted_events + descend.admitted_events;
        if descend.materialized_new_row {
            report.materialized_internal_rows = report.materialized_internal_rows + 1;
        }
        let child = make_time_coord(start, half);
        path.push(
            WipeTarget {
                event_id: descend.row_event_id,
                coord: child,
                is_frontier_root: false,
            },
        );
        if half > 1 {
            let sibling = ensure_time_split(history, events, frontier, &current, other);
            report.admitted_events = report.admitted_events + sibling.admitted_events;
            if sibling.materialized_new_row {
                report.materialized_internal_rows = report.materialized_internal_rows + 1;
            }
        }
        current = DerivationSource {
            secret_id: descend.row_event_id,
            secret: descend.row_secret,
            coord: child,
        };
        proof {
            let after = RetireWalk {
                vault: vault(*history, *events),
                src: current,
                path: path@,
                admitted: report.admitted_events as int,
                materialized: report.materialized_internal_rows as int,
            };
            assert(after == retire_time_step(before, *frontier, unix_minute));
        }
    }
    current
}

/// The walk down the trie of the minute: at every depth where the target parts from a
/// kept leaf, the side of the target gets a row that is wiped later, and the other side
/// a row that stays.
fn walk_trie_for_retire(
    history: &mut HistoryStore,
    events: &mut EventStore,
    frontier: &Frontier,
    unix_minute: u64,
    leaf: &EventId,
    minute_node: &DerivationSource,
    path: &mut Vec<WipeTarget>,
    report: &mut RetireDeletedEventLeafReport,
)
    requires
        old(history).wf(),
        old(events).wf(),
        unix_minute < TIME_TREE_ROOT_WIDTH,
        minute_node.coord.range_start == unix_minute,
        minute_node.coord.range_width == 1,
        minute_node.coord.bit_depth < 256,
        old(path)@.len() <= 64,
        old(report).admitted_events <= 126,
        old(report).materialized_internal_rows <= 126,
    ensures
        final(history).wf(),
        final(events).wf(),
        ({
            let w = RetireWalk {
                vault: vault(*old(history), *old(events)),
                src: *minute_node,
                path: old(path)@,
                admitted: old(report).admitted_events as int,
                materialized: old(report).materialized_internal_rows as int,
            };
            let depths = divergence_depths(
                old(history)@,
                *frontier,
                unix_minute,
                *leaf,
            );
            let end = retire_trie_walk(
                w,
                *frontier,
                unix_minute,
                *leaf,
                depths,
                depths.len() as int,
            );
            &&& vault(*final(history), *final(events)) == end.vault
            &&& final(path)@ == end.path
            &&& final(report).admitted_events == end.admitted
            &&& final(report).materialized_internal_rows == end.materialized
        }),
        *final(report) == (RetireDeletedEventLeafReport {
            admitted_events: final(report).admitted_events,
            materialized_internal_rows: final(report).materialized_internal_rows,
            ..*old(report)
        }),
        final(path)@.len() <= 64 + 256,
{
    let depths = find_divergence_depths(history, frontier, unix_minute, leaf);
    let ghost start = RetireWalk {
        vault: vault(*history, *events),
        src: *minute_node,
        path: path@,
        admitted: report.admitted_events as int,
        materialized: report.materialized_internal_rows as int,
    };
    let mut current = *minute_node;
    let mut i: usize = 0;
    proof {
        assert forall|j: int| 0 <= j < depths@.len() implies 0 < #[trigger] depths@[j] <= 256 by {
            assert(depths@.contains(depths@[j]));
        }
    }
    while i < depths.len()
        invariant
            history.wf(),
            events.wf(),
            unix_minute < TIME_TREE_ROOT_WIDTH,
            i <= depths@.len(),
            forall|j: int| 0 <= j < depths@.len() ==> 0 < #[trigger] depths@[j] <= 256,
            current.coord.bit_depth <= 256,
            path@.len() <= 64 + current.coord.bit_depth,
            report.admitted_events <= 126 + 2 * current.coord.bit_depth,
            report.materialized_internal_rows <= 126 + 2 * current.coord.bit_depth,
            *report == (RetireDeletedEventLeafReport {
                admitted_events: report.admitted_events,
                materialized_internal_rows: report.materialized_internal_rows,
                ..*old(report)
            }),
            (RetireWalk {
                vault: vault(*history, *events),
                src: current,
                path: path@,
                admitted: report.admitted_events as int,
                materialized: report.materialized_internal_rows as int,
            }) == retire_trie_walk(start, *frontier, unix_minute, *leaf, depths@, i as int),
        decreases depths.len() - i,
    {
        let depth: u16 = depths[i];
        let ghost before = RetireWalk {
            vault: vault(*history, *events),
            src: current,
            path: path@,
            admitted: report.admitted_events as int,
            materialized: report.materialized_internal_rows as int,
        };
        if depth > current.coord.bit_depth {
            let side = bit_at(leaf, depth - 1);
            let prefix = mask_prefix_to_depth(*leaf, depth);
            let other = sibling_prefix_at_depth(*leaf, depth);
            let child = Coord {
                range_start: unix_minute,
                range_width: 1,
                bit_depth: depth,
                event_id_prefix: prefix,
            };
            let sibling_child = Coord {
                range_start: unix_minute,
                range_width: 1,
                bit_depth: depth,
                event_id_prefix: other,
            };
            proof {
                lemma_id_of(mask_bits(leaf@, depth as int), prefix);
                lemma_id_of(sibling_bits(leaf@, depth as int), other);
                lemma_mask_mask(leaf@, depth as int, depth as int);
                lemma_sibling_off_path(leaf@, depth as int);
            }
            let descend = ensure_trie_split(history, events, frontier, &current, side, &child);
            report.admitted_events = report.admitted_events + descend.admitted_events;
            if descend.materialized_new_row {
                report.materialized_internal_rows = report.materialized_internal_rows + 1;
            }
            path.push(
                WipeTarget {
                    event_id: descend.row_event_id,
                    coord: child,
                    is_frontier_root: false,
                },
            );
            let sibling = ensure_trie_split(
                history,
                events,
                frontier,
                &current,
                1 - side,
                &sibling_child,
            );
            report.admitted_events = report.admitted_events + sibling.admitted_events;
            if sibling.materialized_new_row {
                report.materialized_internal_rows = report.materialized_internal_rows + 1;
            }
            current = DerivationSource {
                secret_id: descend.row_event_id,
                secret: descend.row_secret,
                coord: child,
            };
        }
        proof {
            let after = RetireWalk {
                vault: vault(*history, *events),
                src: current,
                path: path@,
                admitted: report.admitted_events as int,
                materialized: report.materialized_internal_rows as int,
            };
            assert(after == retire_trie_step(before, *frontier, unix_minute, *leaf, depth));
        }
        i = i + 1;
    }
}

/// The frontier root is the range that holds every minute.
pub proof fn lemma_root_on_path(minute: u64)
    requires
        minute < TIME_TREE_ROOT_WIDTH,
    ensures
        on_time_path(time_coord(0, TIME_TREE_ROOT_WIDTH), minute),
{
    lemma_root_splittable();
    assert(range_start_of(minute as int, TIME_TREE_ROOT_WIDTH as int) == 0) by (nonlinear_arith)
        requires
            minute < TIME_TREE_ROOT_WIDTH,
            range_start_of(minute as int, TIME_TREE_ROOT_WIDTH as int) == minute as int
                - minute as int % TIME_TREE_ROOT_WIDTH as int,
    ;
}

/// A kept row above a leaf lies on the path to its minute.
pub proof fn lemma_above_on_path(
    h: HistoryState,
    f: Frontier,
    minute: u64,
    leaf: EventId,
    row: HistoryNodeRow,
)
    requires
        valid_history(h),
        lies_above(h, f, minute, leaf, row),
    ensures
        on_time_path(row.coord, minute),
        row.coord.range_width > 1 ==> row.coord == time_coord(
            row.coord.range_start,
            row.coord.range_width,
        ),
{
    let c = row.coord;
    assert(valid_coord(c));
    lemma_aligned_range(minute as int, c.range_start as int, c.range_width as int);
    if c.range_width > 1 {
        lemma_mask_none(c.event_id_prefix@);
        lemma_no_prefix(c.event_id_prefix);
    }
}

/// Where the walk of a retirement starts; the row there is the first to wipe.
fn start_retirement(
    history: &HistoryStore,
    frontier: &Frontier,
    unix_minute: u64,
    leaf: &EventId,
    path: &mut Vec<WipeTarget>,
) -> (start: Option<DerivationSource>)
    requires
        history.wf(),
        unix_minute < TIME_TREE_ROOT_WIDTH,
        old(path)@.len() == 0,
    ensures
        forall|events: EventState|
            match #[trigger] retire_start(
                Vault { history: history@, events },
                *frontier,
                unix_minute,
                *leaf,
            ) {
                Some(w) => start == Some(w.src) && final(path)@ == w.path,
                None => start is None && final(path)@.len() == 0,
            },
        start matches Some(src) ==> on_time_path(src.coord, unix_minute) && src.coord.bit_depth
            < 256 && final(path)@.len() == 1 && (src.coord.range_width > 1 ==> src.coord
            == time_coord(src.coord.range_start, src.coord.range_width)),
{
    match history.root(frontier) {
        Some(root_row) => {
            let root = source_of_root(&root_row);
            path.push(
                WipeTarget { event_id: root.secret_id, coord: root.coord, is_frontier_root: true },
            );
            proof {
                lemma_root_on_path(unix_minute);
                assert(path@ =~= seq![path@[0]]);
            }
            Some(root)
        },
        None => match furthest_kept_row(history, frontier, unix_minute, leaf) {
            Some(row) => {
                path.push(
                    WipeTarget {
                        event_id: row.local_history_node_secret_id,
                        coord: row.coord,
                        is_frontier_root: false,
                    },
                );
                proof {
                    lemma_above_on_path(history@, *frontier, unix_minute, *leaf, row);
                    assert(path@ =~= seq![path@[0]]);
                }
                Some(source_of_row(&row))
            },
            None => None,
        },
    }
}

/// Retire the leaf of an event, so that no row above it is kept: walk from the frontier root
/// to the leaf, or without the root from the kept row above the leaf that lies furthest from
/// it; keep the siblings, wipe the path, whatever else is kept above the leaf, and the leaf.
/// Without a leaf row nothing happens.
pub fn retire_deleted_event_leaf(
    history: &mut HistoryStore,
    events: &mut EventStore,
    frontier: Frontier,
    created_at_ms: u64,
    event_id_in_minute: EventId,
) -> (report: RetireDeletedEventLeafReport)
    requires
        old(history).wf(),
        old(events).wf(),
    ensures
        final(history).wf(),
        final(events).wf(),
        (vault(*final(history), *final(events)), report) == retired(
            vault(*old(history), *old(events)),
            frontier,
            (created_at_ms as int / 60_000) as u64,
            event_id_in_minute,
        ),
{
    let unix_minute = unix_minute_for(created_at_ms);
    let place = make_leaf_coord(unix_minute, event_id_in_minute);
    let ghost v = vault(*history, *events);
    let mut report = RetireDeletedEventLeafReport::default();
    let leaf_id = match history.node(&frontier, &place) {
        Some(row) => row.local_history_node_secret_id,
        None => {
            return report;
        },
    };
    report.leaf_id = Some(leaf_id);
    let mut path: Vec<WipeTarget> = Vec::new();
    let start = start_retirement(history, &frontier, unix_minute, &event_id_in_minute, &mut path);
    if let Some(start) = start {
        let node = walk_time_for_retire(
            history,
            events,
            &frontier,
            unix_minute,
            &start,
            &mut path,
            &mut report,
        );
        walk_trie_for_retire(
            history,
            events,
            &frontier,
            unix_minute,
            &event_id_in_minute,
            &node,
            &mut path,
            &mut report,
        );
    }
    proof {
        let w = retire_walk(v, frontier, unix_minute, event_id_in_minute);
        assert(path@ =~= w.path);
        assert(vault(*history, *events) == w.vault);
    }
    let path_tally = wipe_targets(history, events, &frontier, &path, Some(leaf_id));
    let above = list_rows_above(history, &frontier, unix_minute, &event_id_in_minute);
    let above_tally = wipe_targets(history, events, &frontier, &above, Some(leaf_id));
    let last: Vec<WipeTarget> = vec![
        WipeTarget { event_id: leaf_id, coord: place, is_frontier_root: false },
    ];
    assert(last@ =~= seq![
        WipeTarget { event_id: leaf_id, coord: place, is_frontier_root: false },
    ]);
    let leaf_tally = wipe_targets(history, events, &frontier, &last, Some(leaf_id));
    report.wiped_path_rows = path_tally.wiped.saturating_add(above_tally.wiped);
    report.tombstones_written = path_tally.tombstones.saturating_add(
        above_tally.tombstones,
    ).saturating_add(leaf_tally.tombstones);
    report.purged_event_bytes = path_tally.purged.saturating_add(
        above_tally.purged,
    ).saturating_add(leaf_tally.purged);
    report
}

} // verus!
