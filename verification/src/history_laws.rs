//! Laws of the history tree: what a retirement and a chop leave derivable, and what they
//! leave alone.
use vstd::prelude::*;
use vstd::arithmetic::div_mod::{lemma_fundamental_div_mod, lemma_fundamental_div_mod_converse};
use crate::bytes::{lemma_id_ext, lemma_id_of, zero_bytes, EventId};
use crate::history::{
    bit_of, closer, coord_covers, half_coord, holds_minute, leaf_coord, lemma_covers_ordered,
    lemma_half_range, lemma_half_valid, lemma_mask_full, lemma_mask_mask, lemma_mask_none,
    lemma_no_prefix, lemma_ranges_nest, lemma_sibling_off_path, lemma_sibling_shares_path,
    mask_bits, no_prefix, range_start_of, row_source, sibling_bits, side_of, time_child, time_coord,
    trie_child, valid_coord, DerivationSource, Frontier, HistoryNodeRow, NodeTombstoneRow,
    TIME_TREE_ROOT_WIDTH,
};
use crate::history_store::{
    frontier_key, frontier_rows, lemma_frontier_key_injective, lemma_frontier_rows,
    lemma_node_key_injective, node_key, tombstone_key, valid_history, HistoryState,
};
use crate::history_tree::{
    admitted, any_above, ascending_depths, closest, covered, divergence_depths, ensured, furthest,
    is_closest, is_divergence, is_furthest, leaf_derived, leaf_outcome, lemma_above_on_path,
    lemma_closest_unique, lemma_path_step, lemma_root_on_path, lies_above, on_time_path, parts_at,
    retire_start, retire_time_step, retire_time_walk, retire_trie_walk, retire_walk, retired,
    row_target, rows_above, targets_where, time_path, tombstone_of, trie_coord, wiped_one,
    wiped_upto, DeriveEventLeafReport, RetireWalk, Vault, WipeTarget,
};

verus! {

/// The rows of one history are kept in another.
pub open spec fn grows(a: HistoryState, b: HistoryState) -> bool {
    forall|k: Seq<u8>| #[trigger]
        a.nodes.contains_key(k) ==> b.nodes.contains_key(k) && b.nodes[k] == a.nodes[k]
}

/// Roots and tombstones of two histories are the same.
pub open spec fn same_rest(a: HistoryState, b: HistoryState) -> bool {
    a.roots == b.roots && a.tombstones == b.tombstones
}

/// What ensuring a row does to the kept rows.
pub proof fn lemma_ensured(v: Vault, row: HistoryNodeRow)
    requires
        valid_history(v.history),
        valid_coord(row.coord),
    ensures
        ({
            let h = ensured(v, row).0.history;
            &&& valid_history(h)
            &&& grows(v.history, h)
            &&& same_rest(v.history, h)
            &&& h.keeps(row.frontier, row.coord)
            &&& h.has_row(row.frontier, h.node(row.frontier, row.coord))
            &&& h.node(row.frontier, row.coord).coord == row.coord
            &&& forall|g: Frontier, r: HistoryNodeRow| #[trigger]
                h.has_row(g, r) ==> v.history.has_row(g, r) || (g == row.frontier && r == row)
        }),
{
    let h = ensured(v, row).0.history;
    let key = node_key(row.frontier, row.coord);
    assert forall|k: Seq<u8>| #[trigger] h.nodes.contains_key(k) implies k == node_key(
        h.nodes[k].frontier,
        h.nodes[k].coord,
    ) && valid_coord(h.nodes[k].coord) by {
        if k != key {
            assert(v.history.nodes.contains_key(k));
        }
    }
    assert forall|k: Seq<u8>| #[trigger] h.roots.contains_key(k) implies k == frontier_key(
        h.roots[k].frontier,
    ) by {
        assert(v.history.roots.contains_key(k));
    }
    assert forall|k: Seq<u8>| #[trigger] h.tombstones.contains_key(k) implies k == tombstone_key(
        h.tombstones[k].frontier,
        h.tombstones[k].tombstone_node_id,
    ) by {
        assert(v.history.tombstones.contains_key(k));
    }
    if v.history.keeps(row.frontier, row.coord) {
        let kept = v.history.node(row.frontier, row.coord);
        lemma_node_key_injective(kept.frontier, kept.coord, row.frontier, row.coord);
    }
    assert forall|g: Frontier, r: HistoryNodeRow| #[trigger] h.has_row(g, r) implies v.history.has_row(
        g,
        r,
    ) || (g == row.frontier && r == row) by {
        if node_key(g, r.coord) == key {
            lemma_node_key_injective(g, r.coord, row.frontier, row.coord);
        }
    }
}

/// A kept range of the time axis holds one minute and not another.
pub open spec fn range_aside(h: HistoryState, f: Frontier, minute: u64, not: u64) -> bool {
    exists|row: HistoryNodeRow| #[trigger]
        h.has_row(f, row) && row.coord.bit_depth == 0 && holds_minute(row.coord, minute)
            && !holds_minute(row.coord, not)
}

/// What a walk leaves of the kept rows and of the path behind it.
spec fn walk_leaves(w: RetireWalk, end: RetireWalk) -> bool {
    &&& valid_history(end.vault.history)
    &&& grows(w.vault.history, end.vault.history)
    &&& same_rest(w.vault.history, end.vault.history)
    &&& w.path.len() <= end.path.len()
    &&& end.path.take(w.path.len() as int) == w.path
}

/// What the walk down the time axis leaves.
#[verifier::opaque]
spec fn time_walk_leaves(w: RetireWalk, end: RetireWalk, f: Frontier, minute: u64) -> bool {
    &&& walk_leaves(w, end)
    &&& forall|m: u64|
        holds_minute(w.src.coord, m) && m / 2 != minute / 2 ==> #[trigger] range_aside(
            end.vault.history,
            f,
            m,
            minute,
        )
}

proof fn lemma_aside_grows(a: HistoryState, b: HistoryState, f: Frontier, minute: u64, not: u64)
    requires
        grows(a, b),
        range_aside(a, f, minute, not),
    ensures
        range_aside(b, f, minute, not),
{
    let row = choose|row: HistoryNodeRow| #[trigger]
        a.has_row(f, row) && row.coord.bit_depth == 0 && holds_minute(row.coord, minute)
            && !holds_minute(row.coord, not);
    assert(b.has_row(f, row));
}

#[verifier::rlimit(40)]
proof fn lemma_time_walk(w: RetireWalk, f: Frontier, minute: u64)
    requires
        valid_history(w.vault.history),
        on_time_path(w.src.coord, minute),
    ensures
        time_walk_leaves(w, retire_time_walk(w, f, minute), f, minute),
    decreases w.src.coord.range_width,
{
    reveal(time_walk_leaves);
    let c = w.src.coord;
    let end = retire_time_walk(w, f, minute);
    if c.range_width <= 1 {
        assert(c.range_start == minute) by {
            assert(range_start_of(minute as int, 1) == minute as int);
        }
        assert(w.path.take(w.path.len() as int) =~= w.path);
        assert forall|m: u64| holds_minute(c, m) && m / 2 != minute / 2 implies #[trigger] range_aside(
            end.vault.history,
            f,
            m,
            minute,
        ) by {
        }
    } else {
        let side = side_of(c, minute);
        let half = (c.range_width / 2) as u64;
        let other = (1 - side) as u8;
        lemma_path_step(c, minute);
        lemma_half_valid(c, side);
        lemma_half_valid(c, other);
        let w1 = retire_time_step(w, f, minute);
        let row = time_child(f, w.src, side);
        let (v1, descend) = ensured(w.vault, row);
        lemma_ensured(w.vault, row);
        let sib = time_child(f, w.src, other);
        if half > 1 {
            lemma_ensured(v1, sib);
        }
        assert(valid_history(w1.vault.history));
        assert(grows(w.vault.history, w1.vault.history));
        lemma_time_walk(w1, f, minute);
        assert(end == retire_time_walk(w1, f, minute));
        assert(time_walk_leaves(w1, end, f, minute));
        assert(end.path.take(w.path.len() as int) =~= w1.path.take(w.path.len() as int)) by {
            assert(end.path.take(w1.path.len() as int).take(w.path.len() as int)
                =~= end.path.take(w.path.len() as int));
        }
        assert(w1.path.take(w.path.len() as int) =~= w.path);
        assert forall|m: u64| holds_minute(c, m) && m / 2 != minute / 2 implies #[trigger] range_aside(
            end.vault.history,
            f,
            m,
            minute,
        ) by {
            if holds_minute(half_coord(c, side), m) {
                assert(range_aside(end.vault.history, f, m, minute));
            } else {
                let oc = half_coord(c, other);
                assert(holds_minute(oc, m));
                assert(holds_minute(half_coord(c, side), minute));
                assert(!holds_minute(oc, minute));
                if half > 1 {
                    let kept = w1.vault.history.node(f, oc);
                    assert(w1.vault.history.has_row(f, kept));
                    assert(kept.coord == oc);
                    assert(range_aside(w1.vault.history, f, m, minute));
                    lemma_aside_grows(w1.vault.history, end.vault.history, f, m, minute);
                } else {
                    lemma_fundamental_div_mod(c.range_start as int, 2);
                    let q = c.range_start as int / 2;
                    lemma_fundamental_div_mod_converse(
                        m as int,
                        2,
                        q,
                        m as int - c.range_start as int,
                    );
                    lemma_fundamental_div_mod_converse(
                        minute as int,
                        2,
                        q,
                        minute as int - c.range_start as int,
                    );
                    assert(false);
                }
            }
        }
    }
}

proof fn lemma_trie_coord_valid(minute: u64, leaf: EventId, depth: u16)
    requires
        minute < TIME_TREE_ROOT_WIDTH,
        0 < depth <= 256,
    ensures
        valid_coord(trie_coord(minute, depth, mask_bits(leaf@, depth as int))),
        valid_coord(trie_coord(minute, depth, sibling_bits(leaf@, depth as int))),
        trie_coord(minute, depth, mask_bits(leaf@, depth as int)).event_id_prefix@ == mask_bits(
            leaf@,
            depth as int,
        ),
        trie_coord(minute, depth, sibling_bits(leaf@, depth as int)).event_id_prefix@
            == sibling_bits(leaf@, depth as int),
{
    lemma_id_of(mask_bits(leaf@, depth as int), leaf);
    lemma_id_of(sibling_bits(leaf@, depth as int), leaf);
    lemma_mask_mask(leaf@, depth as int, depth as int);
    lemma_sibling_off_path(leaf@, depth as int);
}

proof fn lemma_trie_walk(
    w: RetireWalk,
    f: Frontier,
    minute: u64,
    leaf: EventId,
    depths: Seq<u16>,
    n: int,
)
    requires
        valid_history(w.vault.history),
        minute < TIME_TREE_ROOT_WIDTH,
        forall|i: int| 0 <= i < depths.len() ==> 0 < #[trigger] depths[i] <= 256,
        0 <= n <= depths.len(),
    ensures
        walk_leaves(w, retire_trie_walk(w, f, minute, leaf, depths, n)),
    decreases n,
{
    let end = retire_trie_walk(w, f, minute, leaf, depths, n);
    if n == 0 {
        assert(w.path.take(w.path.len() as int) =~= w.path);
    } else {
        let p = retire_trie_walk(w, f, minute, leaf, depths, n - 1);
        lemma_trie_walk(w, f, minute, leaf, depths, n - 1);
        let depth = depths[n - 1];
        if depth > p.src.coord.bit_depth {
            let side = bit_of(leaf@, depth - 1);
            let child = trie_coord(minute, depth, mask_bits(leaf@, depth as int));
            let other = trie_coord(minute, depth, sibling_bits(leaf@, depth as int));
            lemma_trie_coord_valid(minute, leaf, depth);
            let row = trie_child(f, p.src, side, child);
            let sib = trie_child(f, p.src, (1 - side) as u8, other);
            let (v1, descend) = ensured(p.vault, row);
            lemma_ensured(p.vault, row);
            lemma_ensured(v1, sib);
            assert(end.path.take(w.path.len() as int) =~= p.path.take(w.path.len() as int));
        }
    }
}

/// The node of a key is among the first `n` targets of a wipe.
pub open spec fn wipes_key(f: Frontier, targets: Seq<WipeTarget>, n: int, k: Seq<u8>) -> bool {
    exists|i: int|
        0 <= i < n && !(#[trigger] targets[i]).is_frontier_root && node_key(f, targets[i].coord)
            == k
}

/// The frontier root is among the first `n` targets of a wipe.
pub open spec fn wipes_root(targets: Seq<WipeTarget>, n: int) -> bool {
    exists|i: int| 0 <= i < n && (#[trigger] targets[i]).is_frontier_root
}

/// A tombstone is that of one of the first `n` targets of a wipe.
pub open spec fn marks(
    f: Frontier,
    targets: Seq<WipeTarget>,
    replacement: Option<EventId>,
    n: int,
    k: Seq<u8>,
    row: NodeTombstoneRow,
) -> bool {
    exists|i: int|
        0 <= i < n && k == tombstone_key(f, (#[trigger] targets[i]).event_id) && row
            == tombstone_of(f, targets[i], replacement)
}

/// What a wipe leaves of the kept rows.
pub proof fn lemma_wiped(
    v: Vault,
    f: Frontier,
    targets: Seq<WipeTarget>,
    replacement: Option<EventId>,
    n: int,
)
    requires
        valid_history(v.history),
        0 <= n <= targets.len(),
    ensures
        ({
            let h = wiped_upto(v, f, targets, replacement, n).0.history;
            &&& valid_history(h)
            &&& forall|k: Seq<u8>| #[trigger]
                h.nodes.contains_key(k) <==> v.history.nodes.contains_key(k) && !wipes_key(
                    f,
                    targets,
                    n,
                    k,
                )
            &&& forall|k: Seq<u8>| #[trigger]
                h.nodes.contains_key(k) ==> h.nodes[k] == v.history.nodes[k]
            &&& h.roots == if wipes_root(targets, n) {
                v.history.roots.remove(frontier_key(f))
            } else {
                v.history.roots
            }
            &&& forall|k: Seq<u8>| #[trigger]
                v.history.tombstones.contains_key(k) ==> h.tombstones.contains_key(k)
                    && h.tombstones[k] == v.history.tombstones[k]
            &&& forall|i: int|
                0 <= i < n ==> h.tombstones.contains_key(
                    tombstone_key(f, (#[trigger] targets[i]).event_id),
                )
            &&& forall|k: Seq<u8>| #[trigger]
                h.tombstones.contains_key(k) && !v.history.tombstones.contains_key(k)
                    ==> marks(f, targets, replacement, n, k, h.tombstones[k])
        }),
    decreases n,
{
    if n > 0 {
        lemma_wiped(v, f, targets, replacement, n - 1);
        let p = wiped_upto(v, f, targets, replacement, n - 1).0;
        let h = wiped_upto(v, f, targets, replacement, n).0.history;
        let t = targets[n - 1];
        assert(h == wiped_one(p, f, t, replacement).history);
        assert forall|k: Seq<u8>| #[trigger]
            h.nodes.contains_key(k) <==> v.history.nodes.contains_key(k) && !wipes_key(
                f,
                targets,
                n,
                k,
            ) by {
            if wipes_key(f, targets, n, k) && !wipes_key(f, targets, n - 1, k) {
                let i = choose|i: int|
                    0 <= i < n && !(#[trigger] targets[i]).is_frontier_root && node_key(
                        f,
                        targets[i].coord,
                    ) == k;
                assert(i == n - 1);
            }
            if wipes_key(f, targets, n - 1, k) {
                let i = choose|i: int|
                    0 <= i < n - 1 && !(#[trigger] targets[i]).is_frontier_root && node_key(
                        f,
                        targets[i].coord,
                    ) == k;
                assert(node_key(f, targets[i].coord) == k);
            }
            if !t.is_frontier_root && node_key(f, t.coord) == k {
                assert(wipes_key(f, targets, n, k));
            }
            assert(p.history.nodes.contains_key(k) <==> v.history.nodes.contains_key(k)
                && !wipes_key(f, targets, n - 1, k));
        }
        assert forall|k: Seq<u8>| #[trigger] h.nodes.contains_key(k) implies h.nodes[k]
            == v.history.nodes[k] by {
            assert(p.history.nodes.contains_key(k));
        }
        if wipes_root(targets, n) && !wipes_root(targets, n - 1) {
            let i = choose|i: int| 0 <= i < n && (#[trigger] targets[i]).is_frontier_root;
            assert(i == n - 1);
        }
        if wipes_root(targets, n - 1) {
            let i = choose|i: int| 0 <= i < n - 1 && (#[trigger] targets[i]).is_frontier_root;
            assert(targets[i].is_frontier_root);
        }
        if t.is_frontier_root {
            assert(wipes_root(targets, n));
            assert(h.roots =~= v.history.roots.remove(frontier_key(f)));
        }
        assert forall|k: Seq<u8>| #[trigger] h.nodes.contains_key(k) implies k == node_key(
            h.nodes[k].frontier,
            h.nodes[k].coord,
        ) && valid_coord(h.nodes[k].coord) by {
            assert(p.history.nodes.contains_key(k));
        }
        assert forall|k: Seq<u8>| #[trigger] h.roots.contains_key(k) implies k == frontier_key(
            h.roots[k].frontier,
        ) by {
            assert(p.history.roots.contains_key(k));
        }
        assert forall|k: Seq<u8>| #[trigger] h.tombstones.contains_key(k) implies k
            == tombstone_key(h.tombstones[k].frontier, h.tombstones[k].tombstone_node_id) by {
            if k != tombstone_key(f, t.event_id) {
                assert(p.history.tombstones.contains_key(k));
            }
        }
        assert forall|k: Seq<u8>| #[trigger]
            v.history.tombstones.contains_key(k) implies h.tombstones.contains_key(k)
            && h.tombstones[k] == v.history.tombstones[k] by {
            assert(p.history.tombstones.contains_key(k));
        }
        assert forall|i: int| 0 <= i < n implies h.tombstones.contains_key(
            tombstone_key(f, (#[trigger] targets[i]).event_id),
        ) by {
            if i < n - 1 {
                assert(p.history.tombstones.contains_key(tombstone_key(f, targets[i].event_id)));
            }
        }
        assert forall|k: Seq<u8>| #[trigger]
            h.tombstones.contains_key(k) && !v.history.tombstones.contains_key(k) implies marks(
            f,
            targets,
            replacement,
            n,
            k,
            h.tombstones[k],
        ) by {
            if p.history.tombstones.contains_key(k) {
                assert(marks(f, targets, replacement, n - 1, k, p.history.tombstones[k]));
                let i = choose|i: int|
                    0 <= i < n - 1 && k == tombstone_key(f, (#[trigger] targets[i]).event_id)
                        && p.history.tombstones[k] == tombstone_of(f, targets[i], replacement);
                assert(k == tombstone_key(f, targets[i].event_id));
            } else {
                assert(k == tombstone_key(f, targets[n - 1].event_id));
            }
        }
    } else {
        assert forall|k: Seq<u8>| !#[trigger] wipes_key(f, targets, n, k) by {
        }
    }
}

/// What the wipe of some kept rows of a frontier leaves: the others.
pub proof fn lemma_wiped_where(
    v: Vault,
    f: Frontier,
    keep: spec_fn(HistoryNodeRow) -> bool,
    replacement: Option<EventId>,
)
    requires
        valid_history(v.history),
    ensures
        ({
            let targets = targets_where(v.history, f, keep);
            let h = wiped_upto(v, f, targets, replacement, targets.len() as int).0.history;
            &&& valid_history(h)
            &&& h.roots == v.history.roots
            &&& forall|g: Frontier, row: HistoryNodeRow| #[trigger]
                h.has_row(g, row) <==> v.history.has_row(g, row) && !(g == f && keep(row))
            &&& forall|row: HistoryNodeRow| #[trigger]
                v.history.has_row(f, row) && keep(row) ==> targets.contains(row_target(row))
            &&& forall|i: int|
                0 <= i < targets.len() ==> is_target(v.history, f, keep, #[trigger] targets[i])
        }),
{
    let rows = frontier_rows(v.history, f);
    let kept = rows.filter(keep);
    let targets = targets_where(v.history, f, keep);
    let n = targets.len() as int;
    let h = wiped_upto(v, f, targets, replacement, n).0.history;
    lemma_frontier_rows(v.history, f);
    lemma_wiped(v, f, targets, replacement, n);
    assert forall|i: int| 0 <= i < n implies is_target(
        v.history,
        f,
        keep,
        #[trigger] targets[i],
    ) by {
        rows.lemma_filter_pred(keep, i);
        rows.lemma_filter_contains_rev(keep, kept[i]);
        assert(v.history.has_row(f, kept[i]));
        assert(targets[i] == row_target(kept[i]));
    }
    assert forall|row: HistoryNodeRow| #[trigger]
        v.history.has_row(f, row) && keep(row) implies targets.contains(row_target(row)) by {
        assert(rows.contains(row));
        let j = choose|j: int| 0 <= j < rows.len() && rows[j] == row;
        rows.lemma_filter_contains(keep, j);
        let i = choose|i: int| 0 <= i < kept.len() && kept[i] == row;
        assert(targets[i] == row_target(row));
    }
    assert(!wipes_root(targets, n)) by {
        if wipes_root(targets, n) {
            let i = choose|i: int| 0 <= i < n && (#[trigger] targets[i]).is_frontier_root;
            assert(is_target(v.history, f, keep, targets[i]));
        }
    }
    assert forall|g: Frontier, row: HistoryNodeRow| #[trigger] h.has_row(g, row) <==> v.history.has_row(
        g,
        row,
    ) && !(g == f && keep(row)) by {
        let k = node_key(g, row.coord);
        if wipes_key(f, targets, n, k) && v.history.has_row(g, row) {
            let i = choose|i: int|
                0 <= i < n && !(#[trigger] targets[i]).is_frontier_root && node_key(
                    f,
                    targets[i].coord,
                ) == k;
            assert(is_target(v.history, f, keep, targets[i]));
            lemma_node_key_injective(f, targets[i].coord, g, row.coord);
        }
        if v.history.has_row(g, row) && g == f && keep(row) {
            assert(targets.contains(row_target(row)));
            let i = choose|i: int| 0 <= i < n && targets[i] == row_target(row);
            assert(!targets[i].is_frontier_root);
            assert(wipes_key(f, targets, n, k));
        }
    }
}

/// A wipe is that of a kept row.
pub open spec fn is_target(
    h: HistoryState,
    f: Frontier,
    keep: spec_fn(HistoryNodeRow) -> bool,
    t: WipeTarget,
) -> bool {
    exists|row: HistoryNodeRow| #[trigger]
        h.has_row(f, row) && keep(row) && t == row_target(row)
}

/// Every place on a path covers a leaf.
spec fn path_covers(path: Seq<WipeTarget>, minute: u64, leaf: EventId) -> bool {
    forall|i: int| 0 <= i < path.len() ==> coord_covers((#[trigger] path[i]).coord, minute, leaf)
}

/// What the whole walk of a retirement leaves.
#[verifier::opaque]
spec fn retire_walk_leaves(v: Vault, f: Frontier, minute: u64, leaf: EventId) -> bool {
    let end = retire_walk(v, f, minute, leaf);
    &&& valid_history(end.vault.history)
    &&& grows(v.history, end.vault.history)
    &&& same_rest(v.history, end.vault.history)
    &&& path_covers(end.path, minute, leaf)
    &&& v.history.has_root(f) ==> wipes_root(end.path, end.path.len() as int)
    &&& forall|m: u64|
        (retire_start(v, f, minute, leaf) matches Some(start) && holds_minute(start.src.coord, m))
            && m / 2 != minute / 2 ==> #[trigger] range_aside(end.vault.history, f, m, minute)
}

proof fn lemma_retire_walk(v: Vault, f: Frontier, minute: u64, leaf: EventId)
    requires
        valid_history(v.history),
        minute < TIME_TREE_ROOT_WIDTH,
    ensures
        retire_walk_leaves(v, f, minute, leaf),
{
    reveal(retire_walk_leaves);
    let end = retire_walk(v, f, minute, leaf);
    if let Some(start) = retire_start(v, f, minute, leaf) {
        lemma_retire_start(v, f, minute, leaf);
        let time = retire_time_walk(start, f, minute);
        let depths = divergence_depths(time.vault.history, f, minute, leaf);
        lemma_time_walk(start, f, minute);
        reveal(time_walk_leaves);
        lemma_divergence_exists(time.vault.history, f, minute, leaf);
        assert forall|i: int| 0 <= i < depths.len() implies 0 < #[trigger] depths[i] <= 256 by {
            assert(depths.contains(depths[i]));
        }
        lemma_trie_walk(time, f, minute, leaf, depths, depths.len() as int);
        lemma_time_path_covers(start, f, minute, leaf);
        lemma_trie_path_covers(time, f, minute, leaf, depths, depths.len() as int);
        assert(start.path[0] == time.path.take(1)[0]);
        assert(time.path[0] == end.path.take(time.path.len() as int)[0]);
        assert(end.path[0] == start.path[0]);
        assert forall|m: u64|
            holds_minute(start.src.coord, m) && m / 2 != minute
                / 2 implies #[trigger] range_aside(end.vault.history, f, m, minute) by {
            lemma_aside_grows(time.vault.history, end.vault.history, f, m, minute);
        }
    }
}

/// The start of a retirement lies on the path to the minute.
proof fn lemma_retire_start(v: Vault, f: Frontier, minute: u64, leaf: EventId)
    requires
        valid_history(v.history),
        minute < TIME_TREE_ROOT_WIDTH,
        retire_start(v, f, minute, leaf) is Some,
    ensures
        retire_start(v, f, minute, leaf) matches Some(start) && start.vault == v && on_time_path(
            start.src.coord,
            minute,
        ) && path_covers(start.path, minute, leaf) && start.path.len() == 1
            && start.path[0].is_frontier_root == v.history.has_root(f) && (v.history.has_root(f)
            ==> start.src.coord == time_coord(0, TIME_TREE_ROOT_WIDTH)) && (!v.history.has_root(f)
            ==> is_furthest(v.history, f, minute, leaf, furthest(v.history, f, minute, leaf))
            && start.src.coord == furthest(v.history, f, minute, leaf).coord),
{
    lemma_root_on_path(minute);
    lemma_mask_none(leaf@);
    lemma_no_prefix(no_prefix());
    if !v.history.has_root(f) {
        lemma_furthest_exists(v.history, f, minute, leaf);
        lemma_above_on_path(
            v.history,
            f,
            minute,
            leaf,
            furthest(v.history, f, minute, leaf),
        );
    }
}

/// What a retirement leaves of the kept rows.
#[verifier::opaque]
spec fn retire_leaves(v: Vault, f: Frontier, minute: u64, leaf: EventId) -> bool {
    let w = retire_walk(v, f, minute, leaf);
    let after = retired(v, f, minute, leaf).0;
    let h = after.history;
    let leaf_id = v.history.node(f, leaf_coord(minute, leaf)).local_history_node_secret_id;
    &&& valid_history(h)
    &&& h.roots == v.history.roots.remove(frontier_key(f))
    &&& forall|row: HistoryNodeRow| #[trigger]
        h.has_row(f, row) ==> !coord_covers(row.coord, minute, leaf)
    &&& forall|g: Frontier, row: HistoryNodeRow| #[trigger]
        w.vault.history.has_row(g, row) && (g != f || !coord_covers(row.coord, minute, leaf))
            ==> h.has_row(g, row)
    &&& h.tombstones.contains_key(tombstone_key(f, leaf_id))
    &&& !after.events.events.contains_key(leaf_id@)
}

#[verifier::rlimit(40)]
proof fn lemma_retire_leaves(v: Vault, f: Frontier, minute: u64, leaf: EventId)
    requires
        valid_history(v.history),
        v.history.keeps(f, leaf_coord(minute, leaf)),
        minute < TIME_TREE_ROOT_WIDTH,
    ensures
        retire_leaves(v, f, minute, leaf),
{
    reveal(retire_leaves);
    reveal(retire_walk_leaves);
    lemma_retire_walk(v, f, minute, leaf);
    let end = retire_walk(v, f, minute, leaf);
    let place = leaf_coord(minute, leaf);
    let leaf_id = v.history.node(f, place).local_history_node_secret_id;
    let (v1, _, _, _) = wiped_upto(end.vault, f, end.path, Some(leaf_id), end.path.len() as int);
    lemma_wiped(end.vault, f, end.path, Some(leaf_id), end.path.len() as int);
    let keep = |row: HistoryNodeRow|
        row.coord.bit_depth < 256 && coord_covers(row.coord, minute, leaf);
    let above = rows_above(v1.history, f, minute, leaf);
    assert(above == targets_where(v1.history, f, keep));
    let (v2, _, _, _) = wiped_upto(v1, f, above, Some(leaf_id), above.len() as int);
    lemma_wiped_where(v1, f, keep, Some(leaf_id));
    let last = seq![WipeTarget { event_id: leaf_id, coord: place, is_frontier_root: false }];
    lemma_wiped(v2, f, last, Some(leaf_id), 1);
    let h = retired(v, f, minute, leaf).0.history;
    assert(h == wiped_upto(v2, f, last, Some(leaf_id), 1).0.history);
    assert(wiped_upto(v2, f, last, Some(leaf_id), 1).0 == wiped_one(
        wiped_upto(v2, f, last, Some(leaf_id), 0).0,
        f,
        last[0],
        Some(leaf_id),
    ));
    assert forall|k: Seq<u8>| #[trigger] wipes_key(f, last, 1, k) <==> k == node_key(f, place) by {
        if k == node_key(f, place) {
            assert(!last[0].is_frontier_root);
        }
    }
    assert(!wipes_root(last, 1)) by {
        if wipes_root(last, 1) {
            let i = choose|i: int| 0 <= i < 1 && (#[trigger] last[i]).is_frontier_root;
            assert(last[i] == last[0]);
        }
    }
    assert(v1.history.roots =~= v.history.roots.remove(frontier_key(f))) by {
        if !v.history.has_root(f) && wipes_root(end.path, end.path.len() as int) {
        }
    }
    assert forall|row: HistoryNodeRow| #[trigger] h.has_row(f, row) implies !coord_covers(
        row.coord,
        minute,
        leaf,
    ) by {
        let c = row.coord;
        assert(h.nodes.contains_key(node_key(f, c)));
        assert(v2.history.nodes.contains_key(node_key(f, c)));
        assert(v2.history.has_row(f, row));
        assert(v1.history.has_row(f, row) && !keep(row));
        assert(valid_coord(c));
        if c.bit_depth == 256 && coord_covers(c, minute, leaf) {
            lemma_mask_full(leaf@);
            lemma_id_ext(c.event_id_prefix, leaf);
            assert(c == place);
        }
    }
    assert forall|g: Frontier, row: HistoryNodeRow| #[trigger]
        end.vault.history.has_row(g, row) && (g != f || !coord_covers(row.coord, minute, leaf))
            implies h.has_row(g, row) by {
        let k = node_key(g, row.coord);
        if wipes_key(f, end.path, end.path.len() as int, k) {
            let i = choose|i: int|
                0 <= i < end.path.len() && !(#[trigger] end.path[i]).is_frontier_root && node_key(
                    f,
                    end.path[i].coord,
                ) == k;
            lemma_node_key_injective(f, end.path[i].coord, g, row.coord);
            assert(coord_covers(end.path[i].coord, minute, leaf));
        }
        assert(end.vault.history.nodes.contains_key(k));
        assert(v1.history.nodes.contains_key(k));
        assert(v1.history.has_row(g, row));
        assert(v2.history.has_row(g, row));
        if k == node_key(f, place) {
            lemma_mask_full(leaf@);
            lemma_node_key_injective(g, row.coord, f, place);
        }
        assert(v2.history.nodes.contains_key(k));
        assert(h.nodes.contains_key(k));
    }
}

/// The depths at which a leaf parts from kept leaves can always be listed.
pub proof fn lemma_divergence_exists(h: HistoryState, f: Frontier, minute: u64, leaf: EventId)
    ensures
        is_divergence(h, f, minute, leaf, divergence_depths(h, f, minute, leaf)),
{
    lemma_divergence_listed(h, f, minute, leaf, 257);
    let s = choose|s: Seq<u16>| #[trigger]
        ascending_depths(s) && forall|d: u16| #[trigger]
            s.contains(d) <==> parts_at(h, f, minute, leaf, d) && d < 257;
    assert forall|d: u16| #[trigger] s.contains(d) <==> parts_at(h, f, minute, leaf, d) by {
        if parts_at(h, f, minute, leaf, d) {
            assert(d <= 256);
        }
    }
    assert(is_divergence(h, f, minute, leaf, s));
}

proof fn lemma_divergence_listed(h: HistoryState, f: Frontier, minute: u64, leaf: EventId, n: int)
    requires
        0 <= n <= 257,
    ensures
        exists|s: Seq<u16>| #[trigger]
            ascending_depths(s) && forall|d: u16| #[trigger]
                s.contains(d) <==> parts_at(h, f, minute, leaf, d) && d < n,
    decreases n,
{
    if n == 0 {
        let s = Seq::<u16>::empty();
        assert(ascending_depths(s));
        assert forall|d: u16| #[trigger] s.contains(d) <==> parts_at(h, f, minute, leaf, d) && d
            < n by {
        }
    } else {
        lemma_divergence_listed(h, f, minute, leaf, n - 1);
        let p = choose|s: Seq<u16>| #[trigger]
            ascending_depths(s) && forall|d: u16| #[trigger]
                s.contains(d) <==> parts_at(h, f, minute, leaf, d) && d < n - 1;
        let last = (n - 1) as u16;
        let s = if parts_at(h, f, minute, leaf, last) {
            p.push(last)
        } else {
            p
        };
        assert forall|i: int| 0 <= i < p.len() implies #[trigger] p[i] < last by {
            assert(p.contains(p[i]));
        }
        assert(ascending_depths(s));
        assert forall|d: u16| #[trigger] s.contains(d) <==> parts_at(h, f, minute, leaf, d) && d
            < n by {
            if s.contains(d) {
                let i = choose|i: int| 0 <= i < s.len() && s[i] == d;
                if i < p.len() {
                    assert(p[i] == d);
                    assert(p.contains(d));
                }
            }
            if p.contains(d) {
                let i = choose|i: int| 0 <= i < p.len() && p[i] == d;
                assert(s[i] == d);
            }
            if parts_at(h, f, minute, leaf, d) && d == last {
                assert(s[p.len() as int] == d);
            }
        }
    }
}

/// Of the kept rows above a leaf, one lies furthest from it.
proof fn lemma_furthest_exists(h: HistoryState, f: Frontier, minute: u64, leaf: EventId)
    requires
        valid_history(h),
        any_above(h, f, minute, leaf),
    ensures
        is_furthest(h, f, minute, leaf, furthest(h, f, minute, leaf)),
{
    lemma_frontier_rows(h, f);
    let rows = frontier_rows(h, f);
    let some = choose|row: HistoryNodeRow| lies_above(h, f, minute, leaf, row);
    assert(rows.contains(some));
    let at = choose|j: int| 0 <= j < rows.len() && rows[j] == some;
    lemma_furthest_upto(h, f, minute, leaf, rows, rows.len() as int);
    assert(lies_above(h, f, minute, leaf, rows[at]));
    let best = choose|best: HistoryNodeRow|
        lies_above(h, f, minute, leaf, best) && #[trigger] furthest_of(
            h,
            f,
            minute,
            leaf,
            rows,
            rows.len() as int,
            best,
        );
    assert forall|other: HistoryNodeRow| #[trigger]
        lies_above(h, f, minute, leaf, other) && other != best implies closer(
        other.coord,
        best.coord,
    ) by {
        assert(rows.contains(other));
        let j = choose|j: int| 0 <= j < rows.len() && rows[j] == other;
        assert(rows[j] == other);
    }
    assert(is_furthest(h, f, minute, leaf, best));
}

/// No row among the first `n` lies further from a leaf.
spec fn furthest_of(
    h: HistoryState,
    f: Frontier,
    minute: u64,
    leaf: EventId,
    rows: Seq<HistoryNodeRow>,
    n: int,
    best: HistoryNodeRow,
) -> bool {
    forall|j: int|
        0 <= j < n && lies_above(h, f, minute, leaf, #[trigger] rows[j]) && rows[j] != best
            ==> closer(rows[j].coord, best.coord)
}

proof fn lemma_furthest_upto(
    h: HistoryState,
    f: Frontier,
    minute: u64,
    leaf: EventId,
    rows: Seq<HistoryNodeRow>,
    n: int,
)
    requires
        valid_history(h),
        0 <= n <= rows.len(),
    ensures
        (exists|j: int| 0 <= j < n && lies_above(h, f, minute, leaf, #[trigger] rows[j]))
            ==> exists|best: HistoryNodeRow|
            lies_above(h, f, minute, leaf, best) && #[trigger] furthest_of(
                h,
                f,
                minute,
                leaf,
                rows,
                n,
                best,
            ),
    decreases n,
{
    if n > 0 {
        lemma_furthest_upto(h, f, minute, leaf, rows, n - 1);
        let last = rows[n - 1];
        if exists|j: int| 0 <= j < n - 1 && lies_above(h, f, minute, leaf, #[trigger] rows[j]) {
            let p = choose|best: HistoryNodeRow|
                lies_above(h, f, minute, leaf, best) && #[trigger] furthest_of(
                    h,
                    f,
                    minute,
                    leaf,
                    rows,
                    n - 1,
                    best,
                );
            if lies_above(h, f, minute, leaf, last) && last != p && !closer(last.coord, p.coord) {
                lemma_covers_ordered(last.coord, p.coord, minute, leaf);
                assert(furthest_of(h, f, minute, leaf, rows, n, last));
            } else {
                assert(furthest_of(h, f, minute, leaf, rows, n, p));
            }
        } else if lies_above(h, f, minute, leaf, last) {
            assert(furthest_of(h, f, minute, leaf, rows, n, last));
        }
    }
}

/// Forward secrecy of a retirement. Retiring a leaf leaves neither the frontier root nor the
/// leaf, no bytes of the event that held it, and no kept row from which its secret could be
/// derived; a tombstone names it.
pub proof fn law_retired_leaf_is_not_derivable(v: Vault, f: Frontier, minute: u64, leaf: EventId)
    requires
        valid_history(v.history),
        minute < TIME_TREE_ROOT_WIDTH,
        v.history.keeps(f, leaf_coord(minute, leaf)),
    ensures
        !retired(v, f, minute, leaf).0.history.has_root(f),
        !retired(v, f, minute, leaf).0.history.keeps(f, leaf_coord(minute, leaf)),
        !covered(retired(v, f, minute, leaf).0.history, f, minute, leaf),
        !retired(v, f, minute, leaf).0.events.events.contains_key(
            v.history.node(f, leaf_coord(minute, leaf)).local_history_node_secret_id@,
        ),
        retired(v, f, minute, leaf).0.history.tombstones.contains_key(
            tombstone_key(
                f,
                v.history.node(f, leaf_coord(minute, leaf)).local_history_node_secret_id,
            ),
        ),
{
    lemma_retire_leaves(v, f, minute, leaf);
    reveal(retire_leaves);
    let h = retired(v, f, minute, leaf).0.history;
    let place = leaf_coord(minute, leaf);
    if h.keeps(f, place) {
        let row = h.node(f, place);
        lemma_node_key_injective(row.frontier, row.coord, f, place);
        lemma_mask_full(leaf@);
        assert(h.has_row(f, row));
    }
}

/// What is retired stays retired: a retired leaf cannot be derived again, and the store says
/// so.
pub proof fn law_retired_leaf_is_refused(v: Vault, f: Frontier, created_at_ms: u64, leaf: EventId)
    requires
        valid_history(v.history),
        v.history.keeps(f, leaf_coord((created_at_ms as int / 60_000) as u64, leaf)),
        leaf@ != zero_bytes(),
    ensures
        leaf_outcome(
            retired(v, f, (created_at_ms as int / 60_000) as u64, leaf).0,
            f,
            created_at_ms,
            leaf,
        ) == Err::<(Vault, DeriveEventLeafReport), Seq<char>>(
            "no retained ancestor covers the target leaf: F is wiped and no sibling row covers this coordinate"@,
        ),
{
    let minute = (created_at_ms as int / 60_000) as u64;
    law_retired_leaf_is_not_derivable(v, f, minute, leaf);
}

/// A minute is covered on the time axis: by the frontier root or by a kept range.
pub open spec fn minute_covered(h: HistoryState, f: Frontier, minute: u64) -> bool {
    h.has_root(f) || exists|row: HistoryNodeRow| #[trigger]
        h.has_row(f, row) && row.coord.bit_depth == 0 && holds_minute(row.coord, minute)
}

/// A minute that a kept range holds is covered, and every leaf in it can be derived.
pub proof fn lemma_range_covers(
    v: Vault,
    f: Frontier,
    row: HistoryNodeRow,
    minute: u64,
    event_id_in_minute: EventId,
)
    requires
        valid_history(v.history),
        v.history.has_row(f, row),
        row.coord.bit_depth == 0,
        holds_minute(row.coord, minute),
    ensures
        covered(v.history, f, minute, event_id_in_minute),
        minute_covered(v.history, f, minute),
        forall|created_at_ms: u64|
            created_at_ms as int / 60_000 == minute && event_id_in_minute@ != zero_bytes()
                ==> #[trigger] leaf_outcome(v, f, created_at_ms, event_id_in_minute) is Ok,
{
    assert(valid_coord(row.coord));
    lemma_mask_none(event_id_in_minute@);
    lemma_mask_none(row.coord.event_id_prefix@);
    assert(coord_covers(row.coord, minute, event_id_in_minute));
}

/// Retiring leaves every other minute derivable that was, but for the one that shares the last
/// range of two minutes with the retired one.
pub proof fn law_retirement_keeps_other_minutes_covered(
    v: Vault,
    f: Frontier,
    minute: u64,
    leaf: EventId,
    other_minute: u64,
    event_id_in_minute: EventId,
)
    requires
        valid_history(v.history),
        minute < TIME_TREE_ROOT_WIDTH,
        v.history.keeps(f, leaf_coord(minute, leaf)),
        other_minute < TIME_TREE_ROOT_WIDTH,
        minute_covered(v.history, f, other_minute),
        other_minute / 2 != minute / 2,
    ensures
        minute_covered(retired(v, f, minute, leaf).0.history, f, other_minute),
        covered(
            retired(v, f, minute, leaf).0.history,
            f,
            other_minute,
            event_id_in_minute,
        ),
        forall|created_at_ms: u64|
            created_at_ms as int / 60_000 == other_minute && event_id_in_minute@ != zero_bytes()
                ==> #[trigger] leaf_outcome(
                retired(v, f, minute, leaf).0,
                f,
                created_at_ms,
                event_id_in_minute,
            ) is Ok,
{
    lemma_retire_walk(v, f, minute, leaf);
    lemma_retire_leaves(v, f, minute, leaf);
    reveal(retire_walk_leaves);
    reveal(retire_leaves);
    let end = retire_walk(v, f, minute, leaf);
    let after = retired(v, f, minute, leaf).0;
    assert(range_aside(end.vault.history, f, other_minute, minute)) by {
        if v.history.has_root(f) {
            lemma_retire_start(v, f, minute, leaf);
            let start = retire_start(v, f, minute, leaf).unwrap();
            assert(holds_minute(start.src.coord, other_minute));
        } else {
            let row = choose|row: HistoryNodeRow| #[trigger]
                v.history.has_row(f, row) && row.coord.bit_depth == 0 && holds_minute(
                    row.coord,
                    other_minute,
                );
            assert(valid_coord(row.coord));
            assert(end.vault.history.has_row(f, row));
            if holds_minute(row.coord, minute) {
                lemma_mask_none(leaf@);
                lemma_mask_none(row.coord.event_id_prefix@);
                assert(lies_above(v.history, f, minute, leaf, row));
                lemma_retire_start(v, f, minute, leaf);
                let start = retire_start(v, f, minute, leaf).unwrap();
                let top = furthest(v.history, f, minute, leaf);
                assert(valid_coord(top.coord));
                lemma_ranges_nest(row.coord, top.coord, minute);
                assert(holds_minute(start.src.coord, other_minute));
            }
        }
    }
    let row = choose|row: HistoryNodeRow| #[trigger]
        end.vault.history.has_row(f, row) && row.coord.bit_depth == 0 && holds_minute(
            row.coord,
            other_minute,
        ) && !holds_minute(row.coord, minute);
    assert(after.history.has_row(f, row));
    lemma_range_covers(after, f, row, other_minute, event_id_in_minute);
}

proof fn lemma_time_path_covers(w: RetireWalk, f: Frontier, minute: u64, leaf: EventId)
    requires
        on_time_path(w.src.coord, minute),
        path_covers(w.path, minute, leaf),
    ensures
        path_covers(retire_time_walk(w, f, minute).path, minute, leaf),
    decreases w.src.coord.range_width,
{
    if w.src.coord.range_width > 1 {
        let w1 = retire_time_step(w, f, minute);
        lemma_path_step(w.src.coord, minute);
        let c = half_coord(w.src.coord, side_of(w.src.coord, minute));
        lemma_half_range(minute as int, w.src.coord.range_width as int);
        if c.range_width > 1 {
            lemma_half_range(minute as int, c.range_width as int);
        }
        lemma_mask_none(leaf@);
        lemma_no_prefix(no_prefix());
        assert(coord_covers(c, minute, leaf));
        assert(path_covers(w1.path, minute, leaf));
        lemma_time_path_covers(w1, f, minute, leaf);
    }
}

proof fn lemma_trie_path_covers(
    w: RetireWalk,
    f: Frontier,
    minute: u64,
    leaf: EventId,
    depths: Seq<u16>,
    n: int,
)
    requires
        path_covers(w.path, minute, leaf),
        minute < TIME_TREE_ROOT_WIDTH,
        forall|i: int| 0 <= i < depths.len() ==> 0 < #[trigger] depths[i] <= 256,
        0 <= n <= depths.len(),
    ensures
        path_covers(retire_trie_walk(w, f, minute, leaf, depths, n).path, minute, leaf),
    decreases n,
{
    if n > 0 {
        lemma_trie_path_covers(w, f, minute, leaf, depths, n - 1);
        lemma_trie_coord_valid(minute, leaf, depths[n - 1]);
    }
}

/// A retirement leaves alone every kept row that does not cover the leaf, whatever its
/// frontier, and every other frontier root.
pub proof fn law_retirement_leaves_other_rows(
    v: Vault,
    f: Frontier,
    minute: u64,
    leaf: EventId,
    g: Frontier,
    row: HistoryNodeRow,
)
    requires
        valid_history(v.history),
        minute < TIME_TREE_ROOT_WIDTH,
        v.history.has_row(g, row),
        g != f || !coord_covers(row.coord, minute, leaf),
    ensures
        retired(v, f, minute, leaf).0.history.has_row(g, row),
        g != f ==> retired(v, f, minute, leaf).0.history.has_root(g) == v.history.has_root(g),
{
    if g != f {
        lemma_frontier_key_injective(g, f);
    }
    if v.history.keeps(f, leaf_coord(minute, leaf)) {
        lemma_retire_walk(v, f, minute, leaf);
        lemma_retire_leaves(v, f, minute, leaf);
        reveal(retire_walk_leaves);
        reveal(retire_leaves);
        assert(retire_walk(v, f, minute, leaf).vault.history.has_row(g, row));
    }
}

/// Deriving a leaf keeps it: deriving it again finds the same row and changes nothing.
pub proof fn law_derived_leaf_is_kept(
    v: Vault,
    f: Frontier,
    minute: u64,
    event_id_in_minute: EventId,
)
    requires
        valid_history(v.history),
        minute < TIME_TREE_ROOT_WIDTH,
        !v.history.keeps(f, leaf_coord(minute, event_id_in_minute)),
        covered(v.history, f, minute, event_id_in_minute) || v.history.has_root(f),
    ensures
        ({
            let (after, row, _) = leaf_derived(v, f, minute, event_id_in_minute);
            &&& after.history.keeps(f, leaf_coord(minute, event_id_in_minute))
            &&& after.history.node(f, leaf_coord(minute, event_id_in_minute)) == row
        }),
{
    let leaf = leaf_coord(minute, event_id_in_minute);
    if covered(v.history, f, minute, event_id_in_minute) {
        let src = row_source(
            closest(v.history, f, minute, event_id_in_minute),
        );
        lemma_time_path_leaves_leaf(v, f, src, minute, event_id_in_minute);
    }
}

proof fn lemma_time_path_leaves_leaf(
    v: Vault,
    f: Frontier,
    src: DerivationSource,
    minute: u64,
    event_id_in_minute: EventId,
)
    requires
        !v.history.keeps(f, leaf_coord(minute, event_id_in_minute)),
    ensures
        !time_path(v, f, src, minute).0.history.keeps(f, leaf_coord(minute, event_id_in_minute)),
    decreases src.coord.range_width,
{
    if src.coord.range_width > 1 {
        let row = time_child(f, src, side_of(src.coord, minute));
        let leaf = leaf_coord(minute, event_id_in_minute);
        if node_key(f, row.coord) == node_key(f, leaf) {
            lemma_node_key_injective(f, row.coord, f, leaf);
        }
        lemma_time_path_leaves_leaf(
            admitted(v, row),
            f,
            row_source(row),
            minute,
            event_id_in_minute,
        );
    }
}

/// No kept row of a frontier covers a leaf.
spec fn uncovered(h: HistoryState, g: Frontier, m: u64, l: EventId) -> bool {
    forall|row: HistoryNodeRow| #[trigger] h.has_row(g, row) ==> !coord_covers(row.coord, m, l)
}

/// A walk that starts from a place above its target, which does not cover another leaf.
spec fn walks_aside(
    w: RetireWalk,
    f: Frontier,
    minute: u64,
    leaf: EventId,
    g: Frontier,
    m: u64,
    l: EventId,
) -> bool {
    &&& valid_history(w.vault.history)
    &&& uncovered(w.vault.history, g, m, l)
    &&& coord_covers(w.src.coord, minute, leaf)
    &&& w.src.coord.range_width > 1 ==> w.src.coord.bit_depth == 0
    &&& g == f ==> !coord_covers(w.src.coord, m, l)
}

proof fn lemma_ensured_aside(v: Vault, row: HistoryNodeRow, g: Frontier, m: u64, l: EventId)
    requires
        valid_history(v.history),
        valid_coord(row.coord),
        uncovered(v.history, g, m, l),
        g == row.frontier ==> !coord_covers(row.coord, m, l),
    ensures
        valid_history(ensured(v, row).0.history),
        uncovered(ensured(v, row).0.history, g, m, l),
{
    lemma_ensured(v, row);
    let h = ensured(v, row).0.history;
    assert forall|r: HistoryNodeRow| #[trigger] h.has_row(g, r) implies !coord_covers(
        r.coord,
        m,
        l,
    ) by {
        assert(v.history.has_row(g, r) || (g == row.frontier && r == row));
    }
}

proof fn lemma_time_walk_aside(
    w: RetireWalk,
    f: Frontier,
    minute: u64,
    leaf: EventId,
    g: Frontier,
    m: u64,
    l: EventId,
)
    requires
        on_time_path(w.src.coord, minute),
        walks_aside(w, f, minute, leaf, g, m, l),
    ensures
        walks_aside(retire_time_walk(w, f, minute), f, minute, leaf, g, m, l),
        retire_time_walk(w, f, minute).src.coord.range_width == 1,
    decreases w.src.coord.range_width,
{
    let c = w.src.coord;
    if c.range_width > 1 {
        let side = side_of(c, minute);
        let other = (1 - side) as u8;
        lemma_path_step(c, minute);
        lemma_half_valid(c, side);
        lemma_half_valid(c, other);
        lemma_mask_none(l@);
        lemma_mask_none(leaf@);
        lemma_no_prefix(no_prefix());
        let row = time_child(f, w.src, side);
        lemma_ensured_aside(w.vault, row, g, m, l);
        let (v1, descend) = ensured(w.vault, row);
        if half_coord(c, side).range_width > 1 {
            lemma_ensured_aside(v1, time_child(f, w.src, other), g, m, l);
        }
        let w1 = retire_time_step(w, f, minute);
        assert(holds_minute(half_coord(c, side), minute));
        lemma_time_walk_aside(w1, f, minute, leaf, g, m, l);
    }
}

proof fn lemma_trie_walk_aside(
    w: RetireWalk,
    f: Frontier,
    minute: u64,
    leaf: EventId,
    depths: Seq<u16>,
    n: int,
    g: Frontier,
    m: u64,
    l: EventId,
)
    requires
        minute < TIME_TREE_ROOT_WIDTH,
        forall|i: int| 0 <= i < depths.len() ==> 0 < #[trigger] depths[i] <= 256,
        0 <= n <= depths.len(),
        w.src.coord.range_width == 1,
        walks_aside(w, f, minute, leaf, g, m, l),
    ensures
        walks_aside(retire_trie_walk(w, f, minute, leaf, depths, n), f, minute, leaf, g, m, l),
        retire_trie_walk(w, f, minute, leaf, depths, n).src.coord.range_width == 1,
    decreases n,
{
    if n > 0 {
        lemma_trie_walk_aside(w, f, minute, leaf, depths, n - 1, g, m, l);
        let p = retire_trie_walk(w, f, minute, leaf, depths, n - 1);
        let depth = depths[n - 1];
        if depth > p.src.coord.bit_depth {
            let side = bit_of(leaf@, depth - 1);
            let child = trie_coord(minute, depth, mask_bits(leaf@, depth as int));
            let other = trie_coord(minute, depth, sibling_bits(leaf@, depth as int));
            let d = p.src.coord.bit_depth as int;
            lemma_trie_coord_valid(minute, leaf, depth);
            lemma_mask_mask(l@, depth as int, d);
            lemma_mask_mask(leaf@, depth as int, d);
            lemma_sibling_shares_path(leaf@, depth as int, d);
            if coord_covers(child, m, l) || coord_covers(other, m, l) {
                assert(m == minute);
                assert(mask_bits(l@, d) == mask_bits(leaf@, d));
                assert(coord_covers(p.src.coord, m, l));
            }
            let row = trie_child(f, p.src, side, child);
            let sib = trie_child(f, p.src, (1 - side) as u8, other);
            lemma_ensured_aside(p.vault, row, g, m, l);
            lemma_ensured_aside(ensured(p.vault, row).0, sib, g, m, l);
        }
    }
}

/// What cannot be derived stays so: where neither the root of a frontier nor a kept row covers a
/// leaf, none does after any retirement, of whichever leaf and frontier.
pub proof fn law_retirement_uncovers_for_good(
    v: Vault,
    f: Frontier,
    minute: u64,
    leaf: EventId,
    g: Frontier,
    m: u64,
    l: EventId,
)
    requires
        valid_history(v.history),
        minute < TIME_TREE_ROOT_WIDTH,
        !v.history.has_root(g),
        !covered(v.history, g, m, l),
    ensures
        valid_history(retired(v, f, minute, leaf).0.history),
        !retired(v, f, minute, leaf).0.history.has_root(g),
        !covered(retired(v, f, minute, leaf).0.history, g, m, l),
{
    let place = leaf_coord(minute, leaf);
    if v.history.keeps(f, place) {
        let w = retire_walk(v, f, minute, leaf);
        assert(uncovered(w.vault.history, g, m, l)) by {
            if let Some(start) = retire_start(v, f, minute, leaf) {
                lemma_retire_start(v, f, minute, leaf);
                lemma_mask_none(leaf@);
                lemma_no_prefix(no_prefix());
                if v.history.has_root(f) {
                    lemma_root_on_path(minute);
                    assert(coord_covers(start.src.coord, minute, leaf));
                } else {
                    let row = furthest(v.history, f, minute, leaf);
                    assert(lies_above(v.history, f, minute, leaf, row));
                    assert(v.history.has_row(f, row));
                }
                assert(uncovered(v.history, g, m, l));
                lemma_time_walk_aside(start, f, minute, leaf, g, m, l);
                let time = retire_time_walk(start, f, minute);
                let depths = divergence_depths(time.vault.history, f, minute, leaf);
                lemma_divergence_exists(time.vault.history, f, minute, leaf);
                assert forall|i: int| 0 <= i < depths.len() implies 0 < #[trigger] depths[i]
                    <= 256 by {
                    assert(depths.contains(depths[i]));
                }
                lemma_trie_walk_aside(
                    time,
                    f,
                    minute,
                    leaf,
                    depths,
                    depths.len() as int,
                    g,
                    m,
                    l,
                );
            }
        }
        lemma_retire_walk(v, f, minute, leaf);
        lemma_retire_leaves(v, f, minute, leaf);
        reveal(retire_walk_leaves);
        reveal(retire_leaves);
        lemma_retired_rows(v, f, minute, leaf);
        let h = retired(v, f, minute, leaf).0.history;
        if covered(h, g, m, l) {
            let row = choose|row: HistoryNodeRow| #[trigger]
                h.has_row(g, row) && coord_covers(row.coord, m, l);
            assert(w.vault.history.has_row(g, row));
        }
    }
}

/// The rows that a retirement keeps are among those of its walk.
proof fn lemma_retired_rows(v: Vault, f: Frontier, minute: u64, leaf: EventId)
    requires
        valid_history(v.history),
        v.history.keeps(f, leaf_coord(minute, leaf)),
        minute < TIME_TREE_ROOT_WIDTH,
    ensures
        forall|g: Frontier, row: HistoryNodeRow| #[trigger]
            retired(v, f, minute, leaf).0.history.has_row(g, row) ==> retire_walk(
                v,
                f,
                minute,
                leaf,
            ).vault.history.has_row(g, row),
{
    reveal(retire_walk_leaves);
    lemma_retire_walk(v, f, minute, leaf);
    let end = retire_walk(v, f, minute, leaf);
    let place = leaf_coord(minute, leaf);
    let leaf_id = v.history.node(f, place).local_history_node_secret_id;
    let (v1, _, _, _) = wiped_upto(end.vault, f, end.path, Some(leaf_id), end.path.len() as int);
    lemma_wiped(end.vault, f, end.path, Some(leaf_id), end.path.len() as int);
    let above = rows_above(v1.history, f, minute, leaf);
    let (v2, _, _, _) = wiped_upto(v1, f, above, Some(leaf_id), above.len() as int);
    lemma_wiped(v1, f, above, Some(leaf_id), above.len() as int);
    let last = seq![WipeTarget { event_id: leaf_id, coord: place, is_frontier_root: false }];
    lemma_wiped(v2, f, last, Some(leaf_id), 1);
    let h = retired(v, f, minute, leaf).0.history;
    assert(h == wiped_upto(v2, f, last, Some(leaf_id), 1).0.history);
    assert forall|g: Frontier, row: HistoryNodeRow| #[trigger] h.has_row(g, row) implies
        end.vault.history.has_row(g, row) by {
        let k = node_key(g, row.coord);
        assert(h.nodes.contains_key(k));
        assert(v2.history.nodes.contains_key(k));
        assert(v1.history.nodes.contains_key(k));
        assert(end.vault.history.nodes.contains_key(k));
    }
}

/// A kept leaf is gone for good once it is retired, and kept until then: retiring any leaf leaves
/// it where it was, unless it is this one.
pub proof fn law_leaf_stays_until_it_is_retired(
    v: Vault,
    f: Frontier,
    minute: u64,
    leaf: EventId,
    g: Frontier,
    m: u64,
    l: EventId,
)
    requires
        valid_history(v.history),
        minute < TIME_TREE_ROOT_WIDTH,
        m < TIME_TREE_ROOT_WIDTH,
        v.history.keeps(g, leaf_coord(m, l)),
    ensures
        valid_history(retired(v, f, minute, leaf).0.history),
        (g == f && m == minute && l == leaf) ==> !retired(v, f, minute, leaf).0.history.has_root(g)
            && !covered(retired(v, f, minute, leaf).0.history, g, m, l),
        !(g == f && m == minute && l == leaf) ==> retired(v, f, minute, leaf).0.history.keeps(
            g,
            leaf_coord(m, l),
        ),
{
    if v.history.keeps(f, leaf_coord(minute, leaf)) {
        lemma_retire_leaves(v, f, minute, leaf);
        reveal(retire_leaves);
    }
    if g == f && m == minute && l == leaf {
        law_retired_leaf_is_not_derivable(v, f, minute, leaf);
    } else {
        let place = leaf_coord(m, l);
        let row = v.history.node(g, place);
        lemma_node_key_injective(row.frontier, row.coord, g, place);
        assert(v.history.has_row(g, row));
        lemma_mask_full(leaf@);
        if g == f && coord_covers(row.coord, minute, leaf) {
            lemma_id_ext(l, leaf);
        }
        law_retirement_leaves_other_rows(v, f, minute, leaf, g, row);
    }
}

/// A leaf that no kept row covers is not kept.
pub proof fn lemma_kept_leaf_is_covered(h: HistoryState, f: Frontier, minute: u64, leaf: EventId)
    requires
        valid_history(h),
        h.keeps(f, leaf_coord(minute, leaf)),
    ensures
        covered(h, f, minute, leaf),
{
    let place = leaf_coord(minute, leaf);
    let row = h.node(f, place);
    lemma_node_key_injective(row.frontier, row.coord, f, place);
    lemma_mask_full(leaf@);
    assert(h.has_row(f, row));
}

/// Nothing is lost from one vault to another: kept rows, roots and tombstones stay, and so do the
/// bytes of every event.
pub open spec fn vault_grows(a: Vault, b: Vault) -> bool {
    &&& grows(a.history, b.history)
    &&& same_rest(a.history, b.history)
    &&& forall|id: Seq<u8>| #[trigger]
        a.events.events.contains_key(id) ==> b.events.events.contains_key(id)
            && b.events.events[id].canonical_bytes == a.events.events[id].canonical_bytes
}

proof fn lemma_admitted_grows(v: Vault, row: HistoryNodeRow)
    ensures
        vault_grows(v, admitted(v, row)),
        admitted(v, row).history.keeps(row.frontier, row.coord),
        admitted(v, row).events.events.contains_key(row.local_history_node_secret_id@),
{
}

proof fn lemma_time_path_grows(v: Vault, f: Frontier, src: DerivationSource, minute: u64)
    ensures
        vault_grows(v, time_path(v, f, src, minute).0),
    decreases src.coord.range_width,
{
    if src.coord.range_width > 1 {
        let row = time_child(f, src, side_of(src.coord, minute));
        lemma_admitted_grows(v, row);
        lemma_time_path_grows(admitted(v, row), f, row_source(row), minute);
    }
}

/// When a leaf can be had, and what asking for it does: its place in the minute is not zero, and
/// it is kept, a kept row covers it, or its frontier has a root. It is kept then, the answer is
/// the kept row, and nothing is lost.
pub proof fn law_leaf_is_had_where_it_can_be(
    v: Vault,
    f: Frontier,
    created_at_ms: u64,
    event_id_in_minute: EventId,
)
    ensures
        leaf_outcome(v, f, created_at_ms, event_id_in_minute) is Ok <==> {
            let minute = (created_at_ms as int / 60_000) as u64;
            &&& event_id_in_minute@ != zero_bytes()
            &&& {
                ||| v.history.keeps(f, leaf_coord(minute, event_id_in_minute))
                ||| v.history.roots.contains_key(f.workspace_id@ + f.removal_frontier_id@)
                ||| exists|row: HistoryNodeRow| #[trigger]
                    v.history.has_row(f, row) && coord_covers(row.coord, minute, event_id_in_minute)
            }
        },
        leaf_outcome(v, f, created_at_ms, event_id_in_minute) matches Ok((after, report)) ==> {
            let leaf = leaf_coord((created_at_ms as int / 60_000) as u64, event_id_in_minute);
            &&& vault_grows(v, after)
            &&& after.history.keeps(f, leaf)
            &&& report.local_history_node_secret_id == Some(
                after.history.node(f, leaf).local_history_node_secret_id,
            )
            &&& report.leaf_node_secret == Some(after.history.node(f, leaf).node_secret)
            &&& !v.history.keeps(f, leaf) ==> after.events.events.contains_key(
                after.history.node(f, leaf).local_history_node_secret_id@,
            )
        },
{
    let minute = (created_at_ms as int / 60_000) as u64;
    let leaf = leaf_coord(minute, event_id_in_minute);
    if event_id_in_minute@ != zero_bytes() && !v.history.keeps(f, leaf) {
        if covered(v.history, f, minute, event_id_in_minute) {
            let src = row_source(
                closest(v.history, f, minute, event_id_in_minute),
            );
            lemma_time_path_leaves_leaf(v, f, src, minute, event_id_in_minute);
            lemma_time_path_grows(v, f, src, minute);
            let v1 = time_path(v, f, src, minute).0;
            lemma_admitted_grows(v1, leaf_derived(v, f, minute, event_id_in_minute).1);
        } else if v.history.has_root(f) {
            lemma_admitted_grows(v, leaf_derived(v, f, minute, event_id_in_minute).1);
        }
    }
}

/// The bytes of every wiped row are gone, and no bytes come in.
pub proof fn lemma_wiped_bytes(
    v: Vault,
    f: Frontier,
    targets: Seq<WipeTarget>,
    replacement: Option<EventId>,
    n: int,
)
    requires
        0 <= n <= targets.len(),
    ensures
        ({
            let events = wiped_upto(v, f, targets, replacement, n).0.events.events;
            &&& forall|i: int|
                0 <= i < n ==> !events.contains_key((#[trigger] targets[i]).event_id@)
            &&& forall|id: Seq<u8>| #[trigger]
                events.contains_key(id) ==> v.events.events.contains_key(id)
        }),
    decreases n,
{
    if n > 0 {
        lemma_wiped_bytes(v, f, targets, replacement, n - 1);
        let before = wiped_upto(v, f, targets, replacement, n - 1).0.events.events;
        let after = wiped_upto(v, f, targets, replacement, n).0.events.events;
        assert forall|id: Seq<u8>| #[trigger] after.contains_key(id) implies before.contains_key(id)
            && id != targets[n - 1].event_id@ by {}
    }
}

/// The bytes of a retired leaf are gone with it, and so are those of every row that its path was
/// wiped of.
pub proof fn law_retired_leaf_loses_its_bytes(v: Vault, f: Frontier, minute: u64, leaf: EventId)
    requires
        v.history.keeps(f, leaf_coord(minute, leaf)),
    ensures
        ({
            let events = retired(v, f, minute, leaf).0.events.events;
            let w = retire_walk(v, f, minute, leaf);
            &&& !events.contains_key(
                v.history.node(f, leaf_coord(minute, leaf)).local_history_node_secret_id@,
            )
            &&& forall|i: int|
                0 <= i < w.path.len() ==> !events.contains_key((#[trigger] w.path[i]).event_id@)
        }),
{
    let place = leaf_coord(minute, leaf);
    let leaf_id = v.history.node(f, place).local_history_node_secret_id;
    let w = retire_walk(v, f, minute, leaf);
    lemma_wiped_bytes(w.vault, f, w.path, Some(leaf_id), w.path.len() as int);
    let v1 = wiped_upto(w.vault, f, w.path, Some(leaf_id), w.path.len() as int).0;
    let above = rows_above(v1.history, f, minute, leaf);
    lemma_wiped_bytes(v1, f, above, Some(leaf_id), above.len() as int);
    let v2 = wiped_upto(v1, f, above, Some(leaf_id), above.len() as int).0;
    let last = seq![WipeTarget { event_id: leaf_id, coord: place, is_frontier_root: false }];
    lemma_wiped_bytes(v2, f, last, Some(leaf_id), 1);
    assert(last[0].event_id == leaf_id);
}

/// Among the first `n` of some rows, `best` covers a leaf and lies closer to it than any other that
/// does.
spec fn closest_among(
    rows: Seq<HistoryNodeRow>,
    n: int,
    minute: u64,
    leaf: EventId,
    best: HistoryNodeRow,
) -> bool {
    &&& exists|i: int| 0 <= i < n && #[trigger] rows[i] == best
    &&& coord_covers(best.coord, minute, leaf)
    &&& forall|i: int|
        0 <= i < n && coord_covers((#[trigger] rows[i]).coord, minute, leaf) && rows[i] != best
            ==> closer(best.coord, rows[i].coord)
}

proof fn lemma_closest_among(
    h: HistoryState,
    f: Frontier,
    rows: Seq<HistoryNodeRow>,
    n: int,
    minute: u64,
    leaf: EventId,
) -> (best: HistoryNodeRow)
    requires
        valid_history(h),
        0 <= n <= rows.len(),
        forall|i: int| 0 <= i < rows.len() ==> h.has_row(f, #[trigger] rows[i]),
        exists|i: int| 0 <= i < n && coord_covers((#[trigger] rows[i]).coord, minute, leaf),
    ensures
        closest_among(rows, n, minute, leaf, best),
    decreases n,
{
    let last = rows[n - 1];
    assert(h.has_row(f, rows[n - 1]));
    if exists|i: int| 0 <= i < n - 1 && coord_covers((#[trigger] rows[i]).coord, minute, leaf) {
        let p = lemma_closest_among(h, f, rows, n - 1, minute, leaf);
        let j = choose|j: int| 0 <= j < n - 1 && #[trigger] rows[j] == p;
        assert(h.has_row(f, rows[j]));
        if coord_covers(last.coord, minute, leaf) {
            lemma_covers_ordered(last.coord, p.coord, minute, leaf);
            if closer(last.coord, p.coord) {
                assert(rows[n - 1] == last);
                assert forall|i: int|
                    0 <= i < n && coord_covers((#[trigger] rows[i]).coord, minute, leaf) && rows[i]
                        != last implies closer(last.coord, rows[i].coord) by {
                    if rows[i] != p {
                        assert(closer(p.coord, rows[i].coord));
                    }
                }
                last
            } else {
                if last.coord == p.coord {
                    assert(last == p);
                }
                p
            }
        } else {
            p
        }
    } else {
        let i = choose|i: int| 0 <= i < n && coord_covers((#[trigger] rows[i]).coord, minute, leaf);
        assert(i == n - 1);
        assert(rows[n - 1] == last);
        last
    }
}

/// A leaf that kept rows cover is derived from the closest of them: it covers the leaf, and no other
/// row that covers the leaf has a narrower range, or the same range and a longer prefix.
pub proof fn law_leaf_comes_from_the_closest_row(
    h: HistoryState,
    f: Frontier,
    minute: u64,
    leaf: EventId,
)
    requires
        valid_history(h),
        exists|row: HistoryNodeRow| #[trigger]
            h.has_row(f, row) && coord_covers(row.coord, minute, leaf),
    ensures
        ({
            let best = closest(h, f, minute, leaf);
            &&& h.has_row(f, best)
            &&& coord_covers(best.coord, minute, leaf)
            &&& forall|row: HistoryNodeRow| #[trigger]
                h.has_row(f, row) && coord_covers(row.coord, minute, leaf) && row != best
                    ==> best.coord.range_width < row.coord.range_width || (best.coord.range_width
                    == row.coord.range_width && best.coord.bit_depth > row.coord.bit_depth)
        }),
{
    let rows = frontier_rows(h, f);
    lemma_frontier_rows(h, f);
    assert forall|i: int| 0 <= i < rows.len() implies h.has_row(f, #[trigger] rows[i]) by {
        assert(rows.contains(rows[i]));
    }
    let some = choose|row: HistoryNodeRow| #[trigger]
        h.has_row(f, row) && coord_covers(row.coord, minute, leaf);
    assert(rows.contains(some));
    let at = choose|at: int| 0 <= at < rows.len() && rows[at] == some;
    assert(coord_covers(rows[at].coord, minute, leaf));
    let best = lemma_closest_among(h, f, rows, rows.len() as int, minute, leaf);
    let j = choose|j: int| 0 <= j < rows.len() && #[trigger] rows[j] == best;
    assert(h.has_row(f, rows[j]));
    assert forall|other: HistoryNodeRow| #[trigger]
        h.has_row(f, other) && coord_covers(other.coord, minute, leaf) && other
            != best implies closer(best.coord, other.coord) by {
        assert(rows.contains(other));
        let i = choose|i: int| 0 <= i < rows.len() && rows[i] == other;
        assert(rows[i] == other);
    }
    assert(is_closest(h, f, minute, leaf, best));
    lemma_closest_unique(h, f, minute, leaf, best);
}

} // verus!
