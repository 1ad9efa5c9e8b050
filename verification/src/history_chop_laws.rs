//! Laws of a chop: what it takes away, what it leaves derivable, and what it costs.
use vstd::prelude::*;
use vstd::arithmetic::div_mod::{lemma_fundamental_div_mod, lemma_fundamental_div_mod_converse};
use crate::bytes::{lemma_id_ext, zero_bytes, EventId};
use crate::content::MessageTombstoneRow;
use crate::history::{
    bit_of, coord_covers, half_coord, holds_minute, is_pow2, leaf_coord, lemma_aligned_range,
    lemma_half_valid, lemma_mask_full, lemma_ranges_nest, lemma_root_splittable, mask_bits,
    root_source, row_source, sibling_bits, side_of, splittable, time_child, time_coord, trie_child,
    valid_coord, Coord, Frontier, HistoryNodeRow, NodeTombstoneRow, TIME_TREE_ROOT_WIDTH,
};
use crate::history_chop::{
    any_crossed, chop_at, chop_replacement, chop_step, chop_walk, chop_wiped, chopped, crossed,
    is_top_row, lemma_crossed_rows_ordered, message_tombstones_left, node_tombstone_subsumed,
    node_tombstones_left, range_end, root_targets, rows_below, straddles, swept, top_row,
    whole_chop_walk, ChopWalk,
};
use crate::history_laws::{
    grows, is_target, lemma_ensured, lemma_range_covers, lemma_wiped, lemma_wiped_bytes,
    lemma_wiped_where, marks, minute_covered, same_rest, wipes_key, wipes_root,
};
use crate::history_store::{
    frontier_key, lemma_frontier_key_injective, lemma_node_key_injective, node_key, tombstone_key,
    valid_history, HistoryState,
};
use crate::history_tree::{
    covered, divergence_depths, ensured, halvings, leaf_outcome, lemma_halvings_bound, retire_start,
    retire_time_step, retire_time_walk, retire_trie_walk, retire_walk, retired, row_target,
    rows_above, targets_where, tombstone_of, trie_coord, wiped_upto, DeriveEventLeafReport,
    RetireWalk, Vault, WipeTarget,
};

verus! {

/// How many bits of a number are set.
pub open spec fn ones(n: nat) -> nat
    decreases n,
{
    if n == 0 {
        0
    } else {
        n % 2 + ones(n / 2)
    }
}

/// Taking the top bit away takes one set bit away.
proof fn lemma_ones_top_bit(n: nat, h: nat)
    requires
        is_pow2(h),
        h <= n < 2 * h,
    ensures
        ones(n) == 1 + ones((n - h) as nat),
    decreases h,
{
    if h == 1 {
        assert(n == 1);
        reveal_with_fuel(ones, 2);
    } else {
        lemma_ones_top_bit(n / 2, h / 2);
        assert(((n - h) as nat) % 2 == n % 2);
        assert(((n - h) as nat) / 2 == (n / 2 - h / 2) as nat);
        if n - h == 0 {
            assert(ones((n / 2 - h / 2) as nat) == 0);
        }
    }
}

/// How many zero bits a number ends in.
pub open spec fn trailing_zeros(n: nat) -> nat
    decreases n,
{
    if n == 0 || n % 2 == 1 {
        0
    } else {
        1 + trailing_zeros(n / 2)
    }
}

/// The greatest power of two that divides a number is as far from one as the number ends in
/// zeros.
proof fn lemma_trailing_zeros(n: nat, w: nat)
    requires
        n > 0,
        is_pow2(w),
        n as int % w as int == 0,
        n as int % (2 * w) as int != 0,
    ensures
        trailing_zeros(n) == halvings(w),
    decreases w,
{
    lemma_fundamental_div_mod(n as int, w as int);
    let q = n as int / w as int;
    if w == 1 {
        assert(n % 2 == 1);
    } else {
        let h = w / 2;
        assert(w == 2 * h);
        assert(n as int == 2 * (h as int * q)) by (nonlinear_arith)
            requires
                n as int == w as int * q,
                w == 2 * h,
        ;
        assert(n / 2 == h as int * q);
        lemma_fundamental_div_mod_converse(n as int / 2, h as int, q, 0);
        if (n as int / 2) % w as int == 0 {
            lemma_fundamental_div_mod(n as int / 2, w as int);
            let p = (n as int / 2) / w as int;
            assert(n as int == (2 * w as int) * p) by (nonlinear_arith)
                requires
                    n as int == 2 * (w as int * p),
            ;
            lemma_fundamental_div_mod_converse(n as int, 2 * w as int, p, 0);
        }
        lemma_trailing_zeros(n / 2, h);
    }
}

/// A kept range of the time axis that starts at the floor or above it holds a minute.
pub open spec fn range_above(h: HistoryState, f: Frontier, minute: u64, floor: u64) -> bool {
    exists|row: HistoryNodeRow| #[trigger]
        h.has_row(f, row) && row.coord.bit_depth == 0 && holds_minute(row.coord, minute)
            && row.coord.range_start >= floor
}

/// A kept range of the time axis that ends at the floor or below it holds a minute.
pub open spec fn range_under(h: HistoryState, f: Frontier, minute: u64, floor: u64) -> bool {
    exists|row: HistoryNodeRow| #[trigger]
        h.has_row(f, row) && row.coord.bit_depth == 0 && holds_minute(row.coord, minute)
            && row.coord.range_start + row.coord.range_width <= floor
}

/// No range inside a range has a row of its own.
pub open spec fn unsplit(h: HistoryState, f: Frontier, c: Coord) -> bool {
    forall|row: HistoryNodeRow| #[trigger]
        h.has_row(f, row) && row.coord.bit_depth == 0 && c.range_start <= row.coord.range_start
            && row.coord.range_start + row.coord.range_width <= c.range_start + c.range_width
            ==> row.coord.range_width >= c.range_width
}

/// What the walk of a chop leaves, whatever its floor.
spec fn chop_walk_grows(w: ChopWalk, end: ChopWalk, f: Frontier) -> bool {
    &&& valid_history(end.vault.history)
    &&& grows(w.vault.history, end.vault.history)
    &&& same_rest(w.vault.history, end.vault.history)
    &&& forall|g: Frontier, r: HistoryNodeRow| #[trigger]
        end.vault.history.has_row(g, r) ==> w.vault.history.has_row(g, r) || (g == f
            && r.coord.bit_depth == 0)
    &&& end.boundary + halvings(end.src.coord.range_width as nat) == w.boundary + halvings(
        w.src.coord.range_width as nat,
    )
    &&& w.subtrees <= end.subtrees
    &&& w.siblings <= end.siblings
    &&& end.subtrees - w.subtrees + (end.siblings - w.siblings) <= end.boundary - w.boundary
}

/// What the walk of a chop along a boundary leaves.
#[verifier::opaque]
spec fn chop_walk_parts(w: ChopWalk, end: ChopWalk, f: Frontier, floor: u64) -> bool {
    let ew = end.src.coord.range_width;
    &&& is_pow2(ew as nat)
    &&& floor as int % ew as int == 0
    &&& floor as int % (2 * ew) as int != 0
    &&& end.subtrees == w.subtrees + ones((floor - w.src.coord.range_start) as nat)
    &&& unsplit(w.vault.history, f, w.src.coord) ==> end.subtrees - w.subtrees + (end.siblings
        - w.siblings) == end.boundary - w.boundary
    &&& forall|m: u64|
        holds_minute(w.src.coord, m) && m >= floor ==> #[trigger] range_above(
            end.vault.history,
            f,
            m,
            floor,
        )
    &&& forall|m: u64|
        holds_minute(w.src.coord, m) && m < floor ==> #[trigger] range_under(
            end.vault.history,
            f,
            m,
            floor,
        )
}

proof fn lemma_ranges_grow(a: HistoryState, b: HistoryState, f: Frontier, minute: u64, floor: u64)
    requires
        grows(a, b),
    ensures
        range_above(a, f, minute, floor) ==> range_above(b, f, minute, floor),
        range_under(a, f, minute, floor) ==> range_under(b, f, minute, floor),
{
    if range_above(a, f, minute, floor) {
        let row = choose|row: HistoryNodeRow| #[trigger]
            a.has_row(f, row) && row.coord.bit_depth == 0 && holds_minute(row.coord, minute)
                && row.coord.range_start >= floor;
        assert(b.has_row(f, row));
    }
    if range_under(a, f, minute, floor) {
        let row = choose|row: HistoryNodeRow| #[trigger]
            a.has_row(f, row) && row.coord.bit_depth == 0 && holds_minute(row.coord, minute)
                && row.coord.range_start + row.coord.range_width <= floor;
        assert(b.has_row(f, row));
    }
}

/// One step of a chop: both halves have a row after it, and nothing else is new.
proof fn lemma_chop_step(w: ChopWalk, f: Frontier, floor: u64)
    requires
        valid_history(w.vault.history),
        splittable(w.src.coord),
        straddles(w.src.coord, floor),
    ensures
        ({
            let c = w.src.coord;
            let w1 = chop_step(w, f, floor);
            let h = w1.vault.history;
            &&& valid_history(h)
            &&& grows(w.vault.history, h)
            &&& same_rest(w.vault.history, h)
            &&& h.has_row(f, h.node(f, half_coord(c, 0)))
            &&& h.node(f, half_coord(c, 0)).coord == half_coord(c, 0)
            &&& h.has_row(f, h.node(f, half_coord(c, 1)))
            &&& h.node(f, half_coord(c, 1)).coord == half_coord(c, 1)
            &&& forall|g: Frontier, r: HistoryNodeRow| #[trigger]
                h.has_row(g, r) ==> w.vault.history.has_row(g, r) || (g == f && (r.coord
                    == half_coord(c, 0) || r.coord == half_coord(c, 1)))
            &&& w1.boundary == w.boundary + 1
            &&& w.subtrees <= w1.subtrees && w.siblings <= w1.siblings
            &&& w1.subtrees - w.subtrees + (w1.siblings - w.siblings) <= 1
            &&& unsplit(w.vault.history, f, c) ==> w1.subtrees - w.subtrees + (w1.siblings
                - w.siblings) == 1 && unsplit(h, f, w1.src.coord)
        }),
{
    let c = w.src.coord;
    lemma_half_valid(c, 0);
    lemma_half_valid(c, 1);
    let left = time_child(f, w.src, 0);
    let right = time_child(f, w.src, 1);
    let (first, second) = if floor >= c.range_start + c.range_width / 2 {
        (left, right)
    } else {
        (right, left)
    };
    let v1 = ensured(w.vault, first).0;
    lemma_ensured(w.vault, first);
    lemma_ensured(v1, second);
    let w1 = chop_step(w, f, floor);
    let h = w1.vault.history;
    assert(h == ensured(v1, second).0.history);
    assert(v1.history.nodes.contains_key(node_key(f, first.coord)));
    assert(h.node(f, first.coord) == v1.history.node(f, first.coord));
    assert(v1.history.has_row(f, v1.history.node(f, first.coord)));
    assert forall|g: Frontier, r: HistoryNodeRow| #[trigger] h.has_row(g, r) implies w.vault.history.has_row(
        g,
        r,
    ) || (g == f && (r.coord == half_coord(c, 0) || r.coord == half_coord(c, 1))) by {
        if !(g == f && r == second) {
            assert(v1.history.has_row(g, r));
        }
    }
    if unsplit(w.vault.history, f, c) {
        if w.vault.history.keeps(f, right.coord) {
            let kept = w.vault.history.node(f, right.coord);
            lemma_node_key_injective(kept.frontier, kept.coord, f, right.coord);
            assert(w.vault.history.has_row(f, kept));
            assert(false);
        }
        assert forall|row: HistoryNodeRow| #[trigger]
            h.has_row(f, row) && row.coord.bit_depth == 0 && w1.src.coord.range_start
                <= row.coord.range_start && row.coord.range_start + row.coord.range_width
                <= w1.src.coord.range_start
                + w1.src.coord.range_width implies row.coord.range_width
            >= w1.src.coord.range_width by {
            if w.vault.history.has_row(f, row) {
                assert(row.coord.range_width >= c.range_width);
            }
        }
    }
}

proof fn lemma_chop_walk(w: ChopWalk, f: Frontier, floor: u64)
    requires
        valid_history(w.vault.history),
        w.src.coord.range_width > 1 ==> splittable(w.src.coord),
    ensures
        chop_walk_grows(w, chop_walk(w, f, floor), f),
        straddles(w.src.coord, floor) ==> chop_walk_parts(w, chop_walk(w, f, floor), f, floor),
    decreases w.src.coord.range_width,
{
    let c = w.src.coord;
    let end = chop_walk(w, f, floor);
    if straddles(c, floor) {
        let w1 = chop_step(w, f, floor);
        lemma_half_valid(c, 0);
        lemma_half_valid(c, 1);
        lemma_chop_step(w, f, floor);
        lemma_chop_walk(w1, f, floor);
        assert(end == chop_walk(w1, f, floor));
        assert(halvings(c.range_width as nat) == 1 + halvings(
            w1.src.coord.range_width as nat,
        ));
        assert forall|g: Frontier, r: HistoryNodeRow| #[trigger]
            end.vault.history.has_row(g, r) implies w.vault.history.has_row(g, r) || (g == f
            && r.coord.bit_depth == 0) by {
            if w1.vault.history.has_row(g, r) {
            }
        }
        assert(chop_walk_grows(w, end, f));
        lemma_chop_parts(w, f, floor);
    }
}

/// The parts that a boundary leaves, from those that its next step leaves.
proof fn lemma_chop_parts(w: ChopWalk, f: Frontier, floor: u64)
    requires
        valid_history(w.vault.history),
        splittable(w.src.coord),
        straddles(w.src.coord, floor),
        chop_walk_grows(chop_step(w, f, floor), chop_walk(w, f, floor), f),
        straddles(chop_step(w, f, floor).src.coord, floor) ==> chop_walk_parts(
            chop_step(w, f, floor),
            chop_walk(w, f, floor),
            f,
            floor,
        ),
    ensures
        chop_walk_parts(w, chop_walk(w, f, floor), f, floor),
{
    reveal(chop_walk_parts);
    let c = w.src.coord;
    let end = chop_walk(w, f, floor);
    let w1 = chop_step(w, f, floor);
    let h1 = w1.vault.history;
    let half = (c.range_width / 2) as u64;
    let mid = (c.range_start + half) as u64;
    lemma_half_valid(c, 0);
    lemma_half_valid(c, 1);
    lemma_chop_step(w, f, floor);
    let (l, r) = (half_coord(c, 0), half_coord(c, 1));
    if floor >= mid {
        lemma_ones_step_right(c, floor);
    }
    if !straddles(w1.src.coord, floor) {
        assert(floor == mid);
        assert(end == chop_walk(w1, f, floor));
        assert(ones(0) == 0);
        assert(2 * half == c.range_width);
        lemma_aligned_range(floor as int, c.range_start as int, c.range_width as int);
    }
    assert forall|m: u64| holds_minute(c, m) && m >= floor implies #[trigger] range_above(
        end.vault.history,
        f,
        m,
        floor,
    ) by {
        if !(straddles(w1.src.coord, floor) && holds_minute(w1.src.coord, m)) {
            assert(h1.has_row(f, h1.node(f, r)));
            assert(holds_minute(r, m) && r.range_start >= floor);
            assert(range_above(h1, f, m, floor));
            lemma_ranges_grow(h1, end.vault.history, f, m, floor);
        }
    }
    assert forall|m: u64| holds_minute(c, m) && m < floor implies #[trigger] range_under(
        end.vault.history,
        f,
        m,
        floor,
    ) by {
        if !(straddles(w1.src.coord, floor) && holds_minute(w1.src.coord, m)) {
            assert(h1.has_row(f, h1.node(f, l)));
            assert(holds_minute(l, m) && l.range_start + l.range_width <= floor);
            assert(range_under(h1, f, m, floor));
            lemma_ranges_grow(h1, end.vault.history, f, m, floor);
        }
    }
}

proof fn lemma_ones_step_right(c: Coord, floor: u64)
    requires
        splittable(c),
        holds_minute(c, floor),
        floor >= c.range_start + c.range_width / 2,
    ensures
        ones((floor - c.range_start) as nat) == 1 + ones(
            (floor - c.range_start - c.range_width / 2) as nat,
        ),
{
    lemma_ones_top_bit((floor - c.range_start) as nat, (c.range_width / 2) as nat);
}

/// Of the kept ranges that a boundary runs through, one is the widest.
proof fn lemma_top_row_exists(h: HistoryState, f: Frontier, floor: u64, row: HistoryNodeRow)
    requires
        valid_history(h),
        crossed(h, f, floor, row),
    ensures
        is_top_row(h, f, floor, top_row(h, f, floor)),
    decreases TIME_TREE_ROOT_WIDTH - row.coord.range_width,
{
    assert(valid_coord(row.coord));
    if !is_top_row(h, f, floor, row) {
        let other = choose|other: HistoryNodeRow| #[trigger]
            crossed(h, f, floor, other) && other != row && other.coord.range_width
                >= row.coord.range_width;
        assert(valid_coord(other.coord));
        if other.coord.range_width == row.coord.range_width {
            lemma_crossed_rows_ordered(h, f, floor, other, row);
        }
        lemma_top_row_exists(h, f, floor, other);
    }
}

/// The whole walk of a chop.
proof fn lemma_whole_chop_walk(v: Vault, f: Frontier, floor: u64)
    requires
        valid_history(v.history),
    ensures
        ({
            let w = whole_chop_walk(v, f, floor);
            &&& valid_history(w.vault.history)
            &&& grows(v.history, w.vault.history)
            &&& same_rest(v.history, w.vault.history)
            &&& forall|g: Frontier, r: HistoryNodeRow| #[trigger]
                w.vault.history.has_row(g, r) ==> v.history.has_row(g, r) || (g == f
                    && r.coord.bit_depth == 0)
            &&& 0 <= w.subtrees && 0 <= w.siblings && w.subtrees + w.siblings <= w.boundary <= 63
            &&& forall|m: u64|
                floor <= m < TIME_TREE_ROOT_WIDTH && 0 < floor && minute_covered(v.history, f, m)
                    ==> #[trigger] range_above(w.vault.history, f, m, floor)
        }),
        v.history.has_root(f) && 0 < floor < TIME_TREE_ROOT_WIDTH ==> chop_walk_parts(
            chop_at(v, root_source(v.history.root(f))),
            whole_chop_walk(v, f, floor),
            f,
            floor,
        ) && whole_chop_walk(v, f, floor).boundary + halvings(
            whole_chop_walk(v, f, floor).src.coord.range_width as nat,
        ) == 63,
{
    let w = whole_chop_walk(v, f, floor);
    lemma_root_splittable();
    lemma_root_halvings();
    if v.history.has_root(f) {
        let start = chop_at(v, root_source(v.history.root(f)));
        lemma_chop_walk(start, f, floor);
        assert forall|m: u64|
            floor <= m < TIME_TREE_ROOT_WIDTH && 0 < floor && minute_covered(
                v.history,
                f,
                m,
            ) implies #[trigger] range_above(w.vault.history, f, m, floor) by {
            reveal(chop_walk_parts);
            assert(straddles(start.src.coord, floor));
            assert(holds_minute(start.src.coord, m));
        }
    } else {
        let top = top_row(v.history, f, floor);
        if any_crossed(v.history, f, floor) {
            let some = choose|row: HistoryNodeRow| crossed(v.history, f, floor, row);
            lemma_top_row_exists(v.history, f, floor, some);
            assert(valid_coord(top.coord));
            lemma_halvings_bound(top.coord.range_width as nat);
            lemma_chop_walk(chop_at(v, row_source(top)), f, floor);
        } else {
            lemma_halvings_bound(TIME_TREE_ROOT_WIDTH as nat);
        }
        assert forall|m: u64|
            floor <= m < TIME_TREE_ROOT_WIDTH && 0 < floor && minute_covered(
                v.history,
                f,
                m,
            ) implies #[trigger] range_above(w.vault.history, f, m, floor) by {
            let row = choose|row: HistoryNodeRow| #[trigger]
                v.history.has_row(f, row) && row.coord.bit_depth == 0 && holds_minute(
                    row.coord,
                    m,
                );
            assert(w.vault.history.has_row(f, row));
            if row.coord.range_start < floor {
                assert(valid_coord(row.coord));
                assert(crossed(v.history, f, floor, row));
                lemma_ranges_nest(row.coord, top.coord, floor);
                assert(holds_minute(top.coord, m));
                reveal(chop_walk_parts);
            }
        }
    }
}

/// The time axis is sixty-three halvings wide.
proof fn lemma_root_halvings()
    ensures
        halvings(TIME_TREE_ROOT_WIDTH as nat) == 63,
{
    reveal_with_fuel(halvings, 64);
}

/// A row that a chop wipes: it reaches below the floor and is no leaf.
pub open spec fn reaches_below(row: HistoryNodeRow, floor: u64) -> bool {
    row.coord.bit_depth < 256 && row.coord.range_start < floor
}

/// What a chop leaves: the rows of its walk that do not reach below the floor, and a tombstone
/// for each of the others.
#[verifier::opaque]
spec fn chop_leaves(v: Vault, f: Frontier, floor: u64) -> bool {
    let w = whole_chop_walk(v, f, floor).vault.history;
    let h = chop_wiped(v, f, floor).0.history;
    &&& valid_history(h)
    &&& h.roots == v.history.roots.remove(frontier_key(f))
    &&& forall|g: Frontier, row: HistoryNodeRow| #[trigger]
        h.has_row(g, row) <==> w.has_row(g, row) && !(g == f && reaches_below(row, floor))
    &&& forall|k: Seq<u8>| #[trigger]
        v.history.tombstones.contains_key(k) ==> h.tombstones.contains_key(k) && h.tombstones[k]
            == v.history.tombstones[k]
    &&& forall|row: HistoryNodeRow| #[trigger]
        w.has_row(f, row) && reaches_below(row, floor) ==> h.tombstones.contains_key(
            tombstone_key(f, row.local_history_node_secret_id),
        )
    &&& forall|k: Seq<u8>| #[trigger]
        h.tombstones.contains_key(k) && !v.history.tombstones.contains_key(k) ==> chop_mark(
            v,
            f,
            floor,
            k,
            h.tombstones[k],
        )
}

/// A tombstone that a chop writes: that of the frontier root or that of a row that reaches
/// below the floor.
spec fn chop_mark(v: Vault, f: Frontier, floor: u64, k: Seq<u8>, t: NodeTombstoneRow) -> bool {
    let w = whole_chop_walk(v, f, floor).vault.history;
    ||| v.history.has_root(f) && k == tombstone_key(f, v.history.root(f).local_key_secret_id)
    ||| exists|row: HistoryNodeRow| #[trigger]
        w.has_row(f, row) && reaches_below(row, floor) && k == tombstone_key(
            f,
            row.local_history_node_secret_id,
        ) && t == tombstone_of(f, row_target(row), chop_replacement(v.history, f))
}

#[verifier::rlimit(40)]
proof fn lemma_chop_leaves(v: Vault, f: Frontier, floor: u64)
    requires
        valid_history(v.history),
    ensures
        chop_leaves(v, f, floor),
{
    reveal(chop_leaves);
    let w = whole_chop_walk(v, f, floor);
    lemma_whole_chop_walk(v, f, floor);
    let roots = root_targets(v.history, f);
    let replacement = chop_replacement(v.history, f);
    let n = roots.len() as int;
    let v1 = wiped_upto(w.vault, f, roots, replacement, n).0;
    lemma_wiped(w.vault, f, roots, replacement, n);
    let keep = |row: HistoryNodeRow| row.coord.bit_depth < 256 && row.coord.range_start < floor;
    let below = rows_below(v1.history, f, floor);
    assert(below == targets_where(v1.history, f, keep));
    lemma_wiped_where(v1, f, keep, replacement);
    lemma_wiped(v1, f, below, replacement, below.len() as int);
    let h = chop_wiped(v, f, floor).0.history;
    assert(h == wiped_upto(v1, f, below, replacement, below.len() as int).0.history);
    assert forall|k: Seq<u8>| !#[trigger] wipes_key(f, roots, n, k) by {
        if wipes_key(f, roots, n, k) {
            let i = choose|i: int|
                0 <= i < n && !(#[trigger] roots[i]).is_frontier_root && node_key(
                    f,
                    roots[i].coord,
                ) == k;
            assert(roots[i] == roots[0]);
        }
    }
    assert(v1.history.nodes =~= w.vault.history.nodes);
    if v.history.has_root(f) {
        assert(roots[0].is_frontier_root);
        assert(wipes_root(roots, n));
    } else {
        assert(v.history.roots.remove(frontier_key(f)) =~= v.history.roots);
    }
    assert forall|g: Frontier, row: HistoryNodeRow| v1.history.has_row(g, row)
        == w.vault.history.has_row(g, row) by {
    }
    assert forall|g: Frontier, row: HistoryNodeRow| #[trigger] h.has_row(g, row) <==> w.vault.history.has_row(
        g,
        row,
    ) && !(g == f && reaches_below(row, floor)) by {
        assert(keep(row) == reaches_below(row, floor));
    }
    assert forall|k: Seq<u8>| #[trigger] v.history.tombstones.contains_key(k) implies h.tombstones.contains_key(
        k,
    ) && h.tombstones[k] == v.history.tombstones[k] by {
        assert(w.vault.history.tombstones.contains_key(k));
        assert(v1.history.tombstones.contains_key(k));
    }
    assert forall|row: HistoryNodeRow| #[trigger]
        w.vault.history.has_row(f, row) && reaches_below(row, floor) implies h.tombstones.contains_key(
        tombstone_key(f, row.local_history_node_secret_id),
    ) by {
        assert(v1.history.has_row(f, row) && keep(row));
        assert(below.contains(row_target(row)));
        let i = choose|i: int| 0 <= i < below.len() && below[i] == row_target(row);
        assert(below[i].event_id == row.local_history_node_secret_id);
    }
    assert forall|k: Seq<u8>| #[trigger]
        h.tombstones.contains_key(k) && !v.history.tombstones.contains_key(k) implies chop_mark(
        v,
        f,
        floor,
        k,
        h.tombstones[k],
    ) by {
        if v1.history.tombstones.contains_key(k) {
            assert(marks(f, roots, replacement, n, k, v1.history.tombstones[k]));
        } else {
            assert(marks(f, below, replacement, below.len() as int, k, h.tombstones[k]));
            let i = choose|i: int|
                0 <= i < below.len() && k == tombstone_key(f, (#[trigger] below[i]).event_id)
                    && h.tombstones[k] == tombstone_of(f, below[i], replacement);
            assert(is_target(v1.history, f, keep, below[i]));
            let row = choose|row: HistoryNodeRow| #[trigger]
                v1.history.has_row(f, row) && keep(row) && below[i] == row_target(row);
            assert(w.vault.history.has_row(f, row) && reaches_below(row, floor));
        }
    }
}

/// Dropping tombstones leaves a history valid, with the same rows.
proof fn lemma_swept(v: Vault, f: Frontier, floor: u64)
    requires
        valid_history(v.history),
    ensures
        valid_history(swept(v, f, floor).history),
        swept(v, f, floor).history.nodes == v.history.nodes,
        swept(v, f, floor).history.roots == v.history.roots,
        forall|m: u64|
            minute_covered(swept(v, f, floor).history, f, m) == #[trigger] minute_covered(
                v.history,
                f,
                m,
            ),
{
    let s = swept(v, f, floor).history;
    assert forall|k: Seq<u8>| #[trigger] s.tombstones.contains_key(k) implies k == tombstone_key(
        s.tombstones[k].frontier,
        s.tombstones[k].tombstone_node_id,
    ) by {
        assert(v.history.tombstones.contains_key(k));
    }
    assert forall|m: u64|
        minute_covered(s, f, m) == #[trigger] minute_covered(v.history, f, m) by {
        assert forall|row: HistoryNodeRow| s.has_row(f, row) == v.history.has_row(f, row) by {
        }
        if minute_covered(s, f, m) && !s.has_root(f) {
            let row = choose|row: HistoryNodeRow| #[trigger]
                s.has_row(f, row) && row.coord.bit_depth == 0 && holds_minute(row.coord, m);
            assert(v.history.has_row(f, row));
        }
        if minute_covered(v.history, f, m) && !s.has_root(f) {
            let row = choose|row: HistoryNodeRow| #[trigger]
                v.history.has_row(f, row) && row.coord.bit_depth == 0 && holds_minute(
                    row.coord,
                    m,
                );
            assert(s.has_row(f, row));
        }
    }
}

/// A chop leaves no frontier root and no row that reaches below the floor, the rows of leaves
/// aside, so that no kept range holds a minute below it; the other rows that were kept stay, and
/// so do the rows and the root of every other frontier.
pub proof fn law_chop_keeps_nothing_below_the_floor(
    v: Vault,
    messages: Map<Seq<u8>, MessageTombstoneRow>,
    f: Frontier,
    floor: u64,
)
    requires
        valid_history(v.history),
        floor > 0,
    ensures
        ({
            let h = chopped(v, messages, f, floor).0.history;
            &&& valid_history(h)
            &&& !h.has_root(f)
            &&& forall|row: HistoryNodeRow| #[trigger]
                h.has_row(f, row) && row.coord.bit_depth < 256 ==> row.coord.range_start >= floor
            &&& forall|m: u64| m < floor ==> !#[trigger] minute_covered(h, f, m)
            &&& forall|row: HistoryNodeRow| #[trigger]
                v.history.has_row(f, row) && !reaches_below(row, floor) ==> h.has_row(f, row)
            &&& forall|g: Frontier| g != f ==> #[trigger] h.has_root(g) == v.history.has_root(g)
            &&& forall|g: Frontier, row: HistoryNodeRow|
                g != f ==> #[trigger] h.has_row(g, row) == v.history.has_row(g, row)
        }),
{
    let s = swept(v, f, floor);
    let h = chopped(v, messages, f, floor).0.history;
    let w = whole_chop_walk(s, f, floor).vault.history;
    lemma_swept(v, f, floor);
    lemma_chop_leaves(s, f, floor);
    lemma_whole_chop_walk(s, f, floor);
    reveal(chop_leaves);
    assert forall|row: HistoryNodeRow| #[trigger]
        h.has_row(f, row) && row.coord.bit_depth < 256 implies row.coord.range_start >= floor by {
        assert(!reaches_below(row, floor));
    }
    assert forall|row: HistoryNodeRow| #[trigger]
        v.history.has_row(f, row) && !reaches_below(row, floor) implies h.has_row(f, row) by {
        assert(s.history.has_row(f, row));
        assert(w.has_row(f, row));
    }
    assert forall|g: Frontier| g != f implies #[trigger] h.has_root(g) == v.history.has_root(
        g,
    ) by {
        lemma_frontier_key_injective(g, f);
    }
    assert forall|g: Frontier, row: HistoryNodeRow| g != f implies #[trigger] h.has_row(g, row)
        == v.history.has_row(g, row) by {
        assert(s.history.has_row(g, row) == v.history.has_row(g, row));
        if s.history.has_row(g, row) {
            assert(w.has_row(g, row));
        }
        if w.has_row(g, row) {
            assert(s.history.has_row(g, row));
        }
    }
}

/// What is chopped stays chopped: below the floor, a leaf that is not kept cannot be derived
/// after the chop, and the store says so.
pub proof fn law_leaf_below_the_floor_is_refused(
    v: Vault,
    messages: Map<Seq<u8>, MessageTombstoneRow>,
    f: Frontier,
    floor: u64,
    created_at_ms: u64,
    event_id_in_minute: EventId,
)
    requires
        valid_history(v.history),
        created_at_ms as int / 60_000 < floor,
        event_id_in_minute@ != zero_bytes(),
        !v.history.keeps(f, leaf_coord((created_at_ms as int / 60_000) as u64, event_id_in_minute)),
    ensures
        leaf_outcome(
            chopped(v, messages, f, floor).0,
            f,
            created_at_ms,
            event_id_in_minute,
        ) == Err::<(Vault, DeriveEventLeafReport), Seq<char>>(
            "no retained ancestor covers the target leaf: F is wiped and no sibling row covers this coordinate"@,
        ),
{
    let minute = (created_at_ms as int / 60_000) as u64;
    let s = swept(v, f, floor);
    let h = chopped(v, messages, f, floor).0.history;
    let leaf = leaf_coord(minute, event_id_in_minute);
    law_chop_keeps_nothing_below_the_floor(v, messages, f, floor);
    lemma_swept(v, f, floor);
    lemma_chop_leaves(s, f, floor);
    lemma_whole_chop_walk(s, f, floor);
    reveal(chop_leaves);
    lemma_mask_full(event_id_in_minute@);
    assert(!h.keeps(f, leaf)) by {
        if h.keeps(f, leaf) {
            let row = h.node(f, leaf);
            lemma_node_key_injective(f, leaf, row.frontier, row.coord);
            assert(h.has_row(f, row));
            assert(whole_chop_walk(s, f, floor).vault.history.has_row(f, row));
            assert(s.history.has_row(f, row));
        }
    }
    assert(!covered(h, f, minute, event_id_in_minute)) by {
        if covered(h, f, minute, event_id_in_minute) {
            let row = choose|row: HistoryNodeRow| #[trigger]
                h.has_row(f, row) && coord_covers(row.coord, minute, event_id_in_minute);
            assert(valid_coord(row.coord));
            assert(row.coord.bit_depth == 256);
            lemma_id_ext(row.coord.event_id_prefix, event_id_in_minute);
            assert(row.coord == leaf);
        }
    }
}

/// A chop leaves every minute from the floor on derivable that was: a kept range that starts
/// at the floor or above it holds the minute.
pub proof fn law_chop_keeps_minutes_above_covered(
    v: Vault,
    messages: Map<Seq<u8>, MessageTombstoneRow>,
    f: Frontier,
    floor: u64,
    minute: u64,
    event_id_in_minute: EventId,
)
    requires
        valid_history(v.history),
        floor <= minute < TIME_TREE_ROOT_WIDTH,
        minute_covered(v.history, f, minute),
    ensures
        minute_covered(chopped(v, messages, f, floor).0.history, f, minute),
        floor > 0 ==> range_above(chopped(v, messages, f, floor).0.history, f, minute, floor),
        floor > 0 ==> covered(
            chopped(v, messages, f, floor).0.history,
            f,
            minute,
            event_id_in_minute,
        ),
        forall|created_at_ms: u64|
            floor > 0 && created_at_ms as int / 60_000 == minute && event_id_in_minute@
                != zero_bytes() ==> #[trigger] leaf_outcome(
                chopped(v, messages, f, floor).0,
                f,
                created_at_ms,
                event_id_in_minute,
            ) is Ok,
{
    if floor > 0 {
        let s = swept(v, f, floor);
        let after = chopped(v, messages, f, floor).0;
        let w = whole_chop_walk(s, f, floor).vault.history;
        lemma_swept(v, f, floor);
        lemma_chop_leaves(s, f, floor);
        lemma_whole_chop_walk(s, f, floor);
        reveal(chop_leaves);
        assert(minute_covered(s.history, f, minute));
        assert(range_above(w, f, minute, floor));
        let row = choose|row: HistoryNodeRow| #[trigger]
            w.has_row(f, row) && row.coord.bit_depth == 0 && holds_minute(row.coord, minute)
                && row.coord.range_start >= floor;
        assert(after.history.has_row(f, row));
        lemma_range_covers(after, f, row, minute, event_id_in_minute);
    }
}

/// The ids that a chop marks tell its rows apart: no two of the rows that it wipes share an
/// id, none has that of the frontier root, and no tombstone that stays names one of them.
pub open spec fn distinct_marks(v: Vault, f: Frontier, floor: u64) -> bool {
    let w = whole_chop_walk(v, f, floor).vault.history;
    &&& forall|a: HistoryNodeRow, b: HistoryNodeRow|
        #![trigger w.has_row(f, a), w.has_row(f, b)]
        w.has_row(f, a) && w.has_row(f, b) && reaches_below(a, floor) && reaches_below(b, floor)
            && a.local_history_node_secret_id == b.local_history_node_secret_id ==> a == b
    &&& forall|a: HistoryNodeRow| #[trigger]
        w.has_row(f, a) && reaches_below(a, floor) ==> (v.history.has_root(f) ==> v.history.root(
            f,
        ).local_key_secret_id != a.local_history_node_secret_id) && !v.history.tombstones.contains_key(
            tombstone_key(f, a.local_history_node_secret_id),
        )
}

/// A kept tombstone of a frontier stands for a minute with a range that ends at the floor or
/// below it.
pub open spec fn marked_below(h: HistoryState, f: Frontier, minute: u64, floor: u64) -> bool {
    exists|t: NodeTombstoneRow|
        h.tombstones.contains_key(#[trigger] tombstone_key(f, t.tombstone_node_id))
            && h.tombstones[tombstone_key(f, t.tombstone_node_id)] == t && t.frontier == f
            && t.range_start <= minute < t.range_start + t.range_width && range_end(
            t.range_start,
            t.range_width,
        ) <= floor
}

/// A chop of a kept root leaves coarse tombstones: every minute below the floor lies in the
/// range of a kept tombstone that ends at the floor or below it. Ids are digests of the rows;
/// the law is on rows whose ids tell them apart.
pub proof fn law_chop_marks_every_minute_below_the_floor(
    v: Vault,
    messages: Map<Seq<u8>, MessageTombstoneRow>,
    f: Frontier,
    floor: u64,
    minute: u64,
)
    requires
        valid_history(v.history),
        v.history.has_root(f),
        minute < floor < TIME_TREE_ROOT_WIDTH,
        distinct_marks(swept(v, f, floor), f, floor),
    ensures
        marked_below(chopped(v, messages, f, floor).0.history, f, minute, floor),
{
    let s = swept(v, f, floor);
    let h = chopped(v, messages, f, floor).0.history;
    let w = whole_chop_walk(s, f, floor).vault.history;
    lemma_swept(v, f, floor);
    lemma_chop_leaves(s, f, floor);
    lemma_whole_chop_walk(s, f, floor);
    reveal(chop_leaves);
    assert(range_under(w, f, minute, floor)) by {
        reveal(chop_walk_parts);
    }
    let row = choose|row: HistoryNodeRow| #[trigger]
        w.has_row(f, row) && row.coord.bit_depth == 0 && holds_minute(row.coord, minute)
            && row.coord.range_start + row.coord.range_width <= floor;
    assert(reaches_below(row, floor));
    let id = row.local_history_node_secret_id;
    let k = tombstone_key(f, id);
    assert(h.tombstones.contains_key(k));
    assert(!s.history.tombstones.contains_key(k));
    assert(chop_mark(s, f, floor, k, h.tombstones[k]));
    let root_id = s.history.root(f).local_key_secret_id;
    if k == tombstone_key(f, root_id) {
        lemma_tombstone_key_injective(f, id, root_id);
    }
    let other = choose|row: HistoryNodeRow| #[trigger]
        w.has_row(f, row) && reaches_below(row, floor) && k == tombstone_key(
            f,
            row.local_history_node_secret_id,
        ) && h.tombstones[k] == tombstone_of(
            f,
            row_target(row),
            chop_replacement(s.history, f),
        );
    lemma_tombstone_key_injective(f, id, other.local_history_node_secret_id);
    assert(other == row);
    let t = h.tombstones[k];
    assert(t == tombstone_of(f, row_target(row), chop_replacement(s.history, f)));
    assert(h.tombstones.contains_key(tombstone_key(f, t.tombstone_node_id)));
}

proof fn lemma_tombstone_key_injective(f: Frontier, a: EventId, b: EventId)
    ensures
        tombstone_key(f, a) == tombstone_key(f, b) ==> a == b,
{
    if tombstone_key(f, a) == tombstone_key(f, b) {
        assert(tombstone_key(f, a).skip(64) =~= a@);
        assert(tombstone_key(f, b).skip(64) =~= b@);
        lemma_id_ext(a, b);
    }
}

/// A chop from a kept root writes one subtree tombstone for each set bit of the floor, and
/// walks one range for each bit in front of its trailing zeros.
pub proof fn law_chop_writes_one_subtree_for_each_set_bit(
    v: Vault,
    messages: Map<Seq<u8>, MessageTombstoneRow>,
    f: Frontier,
    floor: u64,
)
    requires
        valid_history(v.history),
        v.history.has_root(f),
        0 < floor < TIME_TREE_ROOT_WIDTH,
    ensures
        chopped(v, messages, f, floor).2.subtree_tombstones_written == ones(floor as nat),
        chopped(v, messages, f, floor).2.boundary_descend_tombstones_written == 63
            - trailing_zeros(floor as nat),
{
    let s = swept(v, f, floor);
    let w = whole_chop_walk(s, f, floor);
    lemma_swept(v, f, floor);
    lemma_whole_chop_walk(s, f, floor);
    reveal(chop_walk_parts);
    lemma_trailing_zeros(floor as nat, w.src.coord.range_width as nat);
}

/// A chop of a fresh frontier, with its root and no range of its own, gives a row to one right
/// half for each bit of the floor that is not set, its trailing zeros aside.
pub proof fn law_chop_keeps_one_sibling_for_each_clear_bit(
    v: Vault,
    messages: Map<Seq<u8>, MessageTombstoneRow>,
    f: Frontier,
    floor: u64,
)
    requires
        valid_history(v.history),
        v.history.has_root(f),
        0 < floor < TIME_TREE_ROOT_WIDTH,
        forall|row: HistoryNodeRow| #[trigger]
            v.history.has_row(f, row) ==> row.coord.bit_depth > 0,
    ensures
        chopped(v, messages, f, floor).2.right_side_siblings_materialized == 63 - ones(
            floor as nat,
        ) - trailing_zeros(floor as nat),
{
    let s = swept(v, f, floor);
    let w = whole_chop_walk(s, f, floor);
    lemma_swept(v, f, floor);
    lemma_whole_chop_walk(s, f, floor);
    reveal(chop_walk_parts);
    lemma_trailing_zeros(floor as nat, w.src.coord.range_width as nat);
    assert forall|row: HistoryNodeRow| s.history.has_row(f, row) == #[trigger] v.history.has_row(
        f,
        row,
    ) by {
    }
    assert(unsplit(s.history, f, time_coord(0, TIME_TREE_ROOT_WIDTH))) by {
        assert forall|row: HistoryNodeRow| #[trigger]
            s.history.has_row(f, row) && row.coord.bit_depth == 0 implies false by {
            assert(v.history.has_row(f, row));
        }
    }
}

/// The cost of a chop is logarithmic in the width of the time axis: at most one subtree or
/// right half and one boundary range for each of its levels.
pub proof fn law_chop_is_logarithmic(
    v: Vault,
    messages: Map<Seq<u8>, MessageTombstoneRow>,
    f: Frontier,
    floor: u64,
)
    requires
        valid_history(v.history),
    ensures
        ({
            let report = chopped(v, messages, f, floor).2;
            &&& report.subtree_tombstones_written + report.right_side_siblings_materialized
                <= report.boundary_descend_tombstones_written
            &&& report.boundary_descend_tombstones_written <= 63
        }),
{
    if floor > 0 {
        lemma_swept(v, f, floor);
        lemma_whole_chop_walk(swept(v, f, floor), f, floor);
    }
}

/// A chop keeps the tombstones of other frontiers, and those of its own whose range ends
/// above the floor.
pub proof fn law_chop_keeps_tombstones_above_the_floor(
    v: Vault,
    messages: Map<Seq<u8>, MessageTombstoneRow>,
    f: Frontier,
    floor: u64,
    k: Seq<u8>,
)
    requires
        valid_history(v.history),
        v.history.tombstones.contains_key(k),
        !node_tombstone_subsumed(v.history.tombstones[k], f, floor),
    ensures
        chopped(v, messages, f, floor).0.history.tombstones.contains_key(k),
        chopped(v, messages, f, floor).0.history.tombstones[k] == v.history.tombstones[k],
{
    if floor > 0 {
        let s = swept(v, f, floor);
        lemma_swept(v, f, floor);
        lemma_chop_leaves(s, f, floor);
        reveal(chop_leaves);
        assert(s.history.tombstones.contains_key(k));
    }
}

// ---------------------------------------------------------------------------
// The kept rows alone decide
// ---------------------------------------------------------------------------

proof fn lemma_ensured_same(a: Vault, b: Vault, row: HistoryNodeRow)
    requires
        a.history == b.history,
    ensures
        ensured(a, row).0.history == ensured(b, row).0.history,
        ensured(a, row).1.row_event_id == ensured(b, row).1.row_event_id,
        ensured(a, row).1.row_secret == ensured(b, row).1.row_secret,
        ensured(a, row).1.materialized_new_row == ensured(b, row).1.materialized_new_row,
{
}

proof fn lemma_chop_walk_same(a: ChopWalk, b: ChopWalk, f: Frontier, floor: u64)
    requires
        a.vault.history == b.vault.history,
        a.src == b.src,
        a.subtrees == b.subtrees,
        a.boundary == b.boundary,
        a.siblings == b.siblings,
    ensures
        ({
            let (x, y) = (chop_walk(a, f, floor), chop_walk(b, f, floor));
            &&& x.vault.history == y.vault.history
            &&& x.subtrees == y.subtrees
            &&& x.boundary == y.boundary
            &&& x.siblings == y.siblings
        }),
    decreases a.src.coord.range_width,
{
    if straddles(a.src.coord, floor) {
        let left = time_child(f, a.src, 0);
        let right = time_child(f, a.src, 1);
        if floor >= a.src.coord.range_start + a.src.coord.range_width / 2 {
            lemma_ensured_same(a.vault, b.vault, left);
            lemma_ensured_same(ensured(a.vault, left).0, ensured(b.vault, left).0, right);
        } else {
            lemma_ensured_same(a.vault, b.vault, right);
            lemma_ensured_same(ensured(a.vault, right).0, ensured(b.vault, right).0, left);
        }
        lemma_chop_walk_same(chop_step(a, f, floor), chop_step(b, f, floor), f, floor);
    }
}

proof fn lemma_wiped_same(
    a: Vault,
    b: Vault,
    f: Frontier,
    targets: Seq<WipeTarget>,
    replacement: Option<EventId>,
    n: int,
)
    requires
        a.history == b.history,
    ensures
        wiped_upto(a, f, targets, replacement, n).0.history == wiped_upto(
            b,
            f,
            targets,
            replacement,
            n,
        ).0.history,
    decreases n,
{
    if n > 0 {
        lemma_wiped_same(a, b, f, targets, replacement, n - 1);
    }
}

/// A chop is deterministic: peers that keep the same rows keep the same rows and write the
/// same tombstones after it, whatever events they store.
pub proof fn law_chop_is_deterministic(
    a: Vault,
    b: Vault,
    messages: Map<Seq<u8>, MessageTombstoneRow>,
    f: Frontier,
    floor: u64,
)
    requires
        a.history == b.history,
    ensures
        chopped(a, messages, f, floor).0.history == chopped(b, messages, f, floor).0.history,
        chopped(a, messages, f, floor).1 == chopped(b, messages, f, floor).1,
{
    if floor > 0 {
        let (x, y) = (swept(a, f, floor), swept(b, f, floor));
        assert(x.history == y.history);
        if x.history.has_root(f) {
            let src = root_source(x.history.root(f));
            lemma_chop_walk_same(chop_at(x, src), chop_at(y, src), f, floor);
        } else if any_crossed(x.history, f, floor) {
            let src = row_source(top_row(x.history, f, floor));
            lemma_chop_walk_same(chop_at(x, src), chop_at(y, src), f, floor);
        }
        let (p, q) = (whole_chop_walk(x, f, floor), whole_chop_walk(y, f, floor));
        assert(p.vault.history == q.vault.history);
        let roots = root_targets(x.history, f);
        let id = chop_replacement(x.history, f);
        lemma_wiped_same(p.vault, q.vault, f, roots, id, roots.len() as int);
        let p1 = wiped_upto(p.vault, f, roots, id, roots.len() as int).0;
        let q1 = wiped_upto(q.vault, f, roots, id, roots.len() as int).0;
        let below = rows_below(p1.history, f, floor);
        lemma_wiped_same(p1, q1, f, below, id, below.len() as int);
    }
}

proof fn lemma_retire_time_same(a: RetireWalk, b: RetireWalk, f: Frontier, minute: u64)
    requires
        a.vault.history == b.vault.history,
        a.src == b.src,
        a.path == b.path,
    ensures
        retire_time_walk(a, f, minute).vault.history == retire_time_walk(
            b,
            f,
            minute,
        ).vault.history,
        retire_time_walk(a, f, minute).src == retire_time_walk(b, f, minute).src,
        retire_time_walk(a, f, minute).path == retire_time_walk(b, f, minute).path,
    decreases a.src.coord.range_width,
{
    if a.src.coord.range_width > 1 {
        let side = side_of(a.src.coord, minute);
        let row = time_child(f, a.src, side);
        let sib = time_child(f, a.src, (1 - side) as u8);
        lemma_ensured_same(a.vault, b.vault, row);
        lemma_ensured_same(ensured(a.vault, row).0, ensured(b.vault, row).0, sib);
        lemma_retire_time_same(
            retire_time_step(a, f, minute),
            retire_time_step(b, f, minute),
            f,
            minute,
        );
    }
}

proof fn lemma_retire_trie_same(
    a: RetireWalk,
    b: RetireWalk,
    f: Frontier,
    minute: u64,
    leaf: EventId,
    depths: Seq<u16>,
    n: int,
)
    requires
        a.vault.history == b.vault.history,
        a.src == b.src,
        a.path == b.path,
    ensures
        ({
            let x = retire_trie_walk(a, f, minute, leaf, depths, n);
            let y = retire_trie_walk(b, f, minute, leaf, depths, n);
            &&& x.vault.history == y.vault.history
            &&& x.src == y.src
            &&& x.path == y.path
        }),
    decreases n,
{
    if n > 0 {
        lemma_retire_trie_same(a, b, f, minute, leaf, depths, n - 1);
        let x = retire_trie_walk(a, f, minute, leaf, depths, n - 1);
        let y = retire_trie_walk(b, f, minute, leaf, depths, n - 1);
        let depth = depths[n - 1];
        let side = bit_of(leaf@, depth - 1);
        let row = trie_child(
            f,
            x.src,
            side,
            trie_coord(
                minute,
                depth,
                mask_bits(leaf@, depth as int),
            ),
        );
        let sib = trie_child(
            f,
            x.src,
            (1 - side) as u8,
            trie_coord(
                minute,
                depth,
                sibling_bits(leaf@, depth as int),
            ),
        );
        lemma_ensured_same(x.vault, y.vault, row);
        lemma_ensured_same(ensured(x.vault, row).0, ensured(y.vault, row).0, sib);
    }
}

/// A retirement is deterministic: peers that keep the same rows keep the same rows and
/// write the same tombstones after it, whatever events they store.
pub proof fn law_retirement_is_deterministic(
    a: Vault,
    b: Vault,
    f: Frontier,
    minute: u64,
    leaf: EventId,
)
    requires
        a.history == b.history,
    ensures
        retired(a, f, minute, leaf).0.history == retired(b, f, minute, leaf).0.history,
{
    let place = leaf_coord(minute, leaf);
    if a.history.keeps(f, place) {
        let id = a.history.node(f, place).local_history_node_secret_id;
        if let (Some(sa), Some(sb)) = (
            retire_start(a, f, minute, leaf),
            retire_start(b, f, minute, leaf),
        ) {
            lemma_retire_time_same(sa, sb, f, minute);
            let (ta, tb) = (retire_time_walk(sa, f, minute), retire_time_walk(sb, f, minute));
            let depths = divergence_depths(ta.vault.history, f, minute, leaf);
            lemma_retire_trie_same(ta, tb, f, minute, leaf, depths, depths.len() as int);
        }
        let (wa, wb) = (retire_walk(a, f, minute, leaf), retire_walk(b, f, minute, leaf));
        lemma_wiped_same(wa.vault, wb.vault, f, wa.path, Some(id), wa.path.len() as int);
        let va = wiped_upto(wa.vault, f, wa.path, Some(id), wa.path.len() as int).0;
        let vb = wiped_upto(wb.vault, f, wb.path, Some(id), wb.path.len() as int).0;
        let above = rows_above(va.history, f, minute, leaf);
        lemma_wiped_same(va, vb, f, above, Some(id), above.len() as int);
        let xa = wiped_upto(va, f, above, Some(id), above.len() as int).0;
        let xb = wiped_upto(vb, f, above, Some(id), above.len() as int).0;
        let last = seq![WipeTarget { event_id: id, coord: place, is_frontier_root: false }];
        lemma_wiped_same(xa, xb, f, last, Some(id), 1);
    }
}

// ---------------------------------------------------------------------------
// What a floor drops
// ---------------------------------------------------------------------------

/// A chop purges what it wipes: the bytes behind the frontier root are gone, and those behind every
/// row that reached below the floor.
pub proof fn law_chop_purges_what_it_wipes(
    v: Vault,
    messages: Map<Seq<u8>, MessageTombstoneRow>,
    f: Frontier,
    floor: u64,
)
    requires
        valid_history(v.history),
        floor > 0,
    ensures
        ({
            let events = chopped(v, messages, f, floor).0.events.events;
            &&& v.history.has_root(f) ==> !events.contains_key(
                v.history.root(f).local_key_secret_id@,
            )
            &&& forall|row: HistoryNodeRow| #[trigger]
                v.history.has_row(f, row) && row.coord.bit_depth < 256 && row.coord.range_start
                    < floor ==> !events.contains_key(row.local_history_node_secret_id@)
        }),
{
    let s = swept(v, f, floor);
    let w = whole_chop_walk(s, f, floor).vault;
    lemma_swept(v, f, floor);
    lemma_whole_chop_walk(s, f, floor);
    let roots = root_targets(s.history, f);
    let id = chop_replacement(s.history, f);
    lemma_wiped_bytes(w, f, roots, id, roots.len() as int);
    lemma_wiped(w, f, roots, id, roots.len() as int);
    let v1 = wiped_upto(w, f, roots, id, roots.len() as int).0;
    let keep = |row: HistoryNodeRow| row.coord.bit_depth < 256 && row.coord.range_start < floor;
    let below = rows_below(v1.history, f, floor);
    lemma_wiped_bytes(v1, f, below, id, below.len() as int);
    let events = chopped(v, messages, f, floor).0.events.events;
    if v.history.has_root(f) {
        assert(roots[0].event_id == v.history.root(f).local_key_secret_id);
    }
    assert forall|k: Seq<u8>| !#[trigger] wipes_key(f, roots, roots.len() as int, k) by {
        if wipes_key(f, roots, roots.len() as int, k) {
            let i = choose|i: int|
                0 <= i < roots.len() && !(#[trigger] roots[i]).is_frontier_root && node_key(
                    f,
                    roots[i].coord,
                ) == k;
            assert(roots[i] == roots[0]);
        }
    }
    assert(v1.history.nodes =~= w.history.nodes);
    assert(below == targets_where(v1.history, f, keep));
    lemma_wiped_where(v1, f, keep, id);
    assert forall|row: HistoryNodeRow| #[trigger]
        v.history.has_row(f, row) && row.coord.bit_depth < 256 && row.coord.range_start
            < floor implies !events.contains_key(row.local_history_node_secret_id@) by {
        assert(s.history.has_row(f, row));
        assert(w.history.has_row(f, row));
        assert(v1.history.has_row(f, row));
        assert(keep(row));
        assert(below.contains(row_target(row)));
        let i = choose|i: int| 0 <= i < below.len() && below[i] == row_target(row);
        assert(below[i].event_id == row.local_history_node_secret_id);
    }
}

/// What a floor leaves of the tombstones: of a frontier, exactly the node tombstones whose range
/// ends above it; of a workspace, exactly the message tombstones of minutes from the floor on.
/// Other frontiers and workspaces keep theirs.
pub proof fn law_floor_drops_what_it_subsumes(
    nodes: Map<Seq<u8>, NodeTombstoneRow>,
    messages: Map<Seq<u8>, MessageTombstoneRow>,
    f: Frontier,
    floor: u64,
)
    ensures
        forall|k: Seq<u8>| #[trigger]
            nodes.contains_key(k) ==> (node_tombstones_left(nodes, f, floor).contains_key(k) <==> !(
            nodes[k].frontier == f && (nodes[k].range_start + nodes[k].range_width <= floor || floor
                == u64::MAX))),
        forall|k: Seq<u8>| #[trigger]
            node_tombstones_left(nodes, f, floor).contains_key(k) ==> nodes.contains_key(k)
                && node_tombstones_left(nodes, f, floor)[k] == nodes[k],
        forall|k: Seq<u8>| #[trigger]
            messages.contains_key(k) ==> (message_tombstones_left(
                messages,
                f.workspace_id,
                floor,
            ).contains_key(k) <==> !(messages[k].workspace_id == f.workspace_id
                && messages[k].authored_minute < floor)),
        forall|k: Seq<u8>| #[trigger]
            message_tombstones_left(messages, f.workspace_id, floor).contains_key(k)
                ==> messages.contains_key(k) && message_tombstones_left(
                messages,
                f.workspace_id,
                floor,
            )[k] == messages[k],
{
}

/// A chop leaves the message tombstones from its floor on, and those of other workspaces; it drops
/// the others. A chop to floor zero changes nothing.
pub proof fn law_chop_drops_message_tombstones_below(
    v: Vault,
    messages: Map<Seq<u8>, MessageTombstoneRow>,
    f: Frontier,
    floor: u64,
    k: Seq<u8>,
)
    requires
        messages.contains_key(k),
    ensures
        chopped(v, messages, f, floor).1.contains_key(k) <==> !(messages[k].workspace_id
            == f.workspace_id && messages[k].authored_minute < floor),
        floor == 0 ==> chopped(v, messages, f, floor).0 == v,
{
}

} // verus!
