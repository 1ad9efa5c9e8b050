//! Storage of the history tree: kept node secrets, frontier roots, and the tombstones
//! of wiped nodes.
use vstd::prelude::*;
use crate::bytes::{
    be16, be64, extend_bytes, has_prefix, id_pair, lemma_be16_injective, lemma_be64_injective,
    lemma_id_ext, put_be16, put_be64, EventId,
};
use crate::history::{valid_coord, Coord, Frontier, HistoryNodeRow, KeySecretRow, NodeTombstoneRow};
use crate::table::{is_listing, key_views, lemma_listing_exists, listing, with_prefix, Table};

verus! {

/// The key of a frontier.
pub open spec fn frontier_key(f: Frontier) -> Seq<u8> {
    f.workspace_id@ + f.removal_frontier_id@
}

/// The key of a node.
pub open spec fn node_key(f: Frontier, c: Coord) -> Seq<u8> {
    frontier_key(f) + be64(c.range_start) + be64(c.range_width) + be16(c.bit_depth)
        + c.event_id_prefix@
}

/// The key of a tombstone.
pub open spec fn tombstone_key(f: Frontier, tombstone_node_id: EventId) -> Seq<u8> {
    frontier_key(f) + tombstone_node_id@
}

/// The rows that are kept.
#[verifier::ext_equal]
pub struct HistoryState {
    pub nodes: Map<Seq<u8>, HistoryNodeRow>,
    pub roots: Map<Seq<u8>, KeySecretRow>,
    pub tombstones: Map<Seq<u8>, NodeTombstoneRow>,
}

impl HistoryState {
    /// A node is kept.
    pub open spec fn keeps(self, f: Frontier, c: Coord) -> bool {
        self.nodes.contains_key(node_key(f, c))
    }

    /// The row of a kept node.
    pub open spec fn node(self, f: Frontier, c: Coord) -> HistoryNodeRow {
        self.nodes[node_key(f, c)]
    }

    /// The frontier root is kept.
    pub open spec fn has_root(self, f: Frontier) -> bool {
        self.roots.contains_key(frontier_key(f))
    }

    /// The row of the frontier root.
    pub open spec fn root(self, f: Frontier) -> KeySecretRow {
        self.roots[frontier_key(f)]
    }

    /// `row` is a kept row of a frontier.
    pub open spec fn has_row(self, f: Frontier, row: HistoryNodeRow) -> bool {
        &&& row.frontier == f
        &&& self.nodes.contains_key(node_key(f, row.coord))
        &&& self.nodes[node_key(f, row.coord)] == row
    }
}

/// Finitely many nodes are kept; every row is kept under its own key, and every node at a place
/// that a node can have.
pub open spec fn valid_history(s: HistoryState) -> bool {
    &&& s.nodes.dom().finite()
    &&& forall|k: Seq<u8>| #[trigger]
        s.nodes.contains_key(k) ==> k == node_key(s.nodes[k].frontier, s.nodes[k].coord)
            && valid_coord(s.nodes[k].coord)
    &&& forall|k: Seq<u8>| #[trigger]
        s.roots.contains_key(k) ==> k == frontier_key(s.roots[k].frontier)
    &&& forall|k: Seq<u8>| #[trigger]
        s.tombstones.contains_key(k) ==> k == tombstone_key(
            s.tombstones[k].frontier,
            s.tombstones[k].tombstone_node_id,
        )
}

/// A change that only adds rows under their own keys keeps a history valid.
proof fn lemma_valid_change(s: HistoryState, t: HistoryState)
    requires
        valid_history(s),
        t.nodes.dom().finite(),
        forall|k: Seq<u8>| #[trigger]
            t.nodes.contains_key(k) ==> (s.nodes.contains_key(k) && s.nodes[k] == t.nodes[k]) || (k
                == node_key(t.nodes[k].frontier, t.nodes[k].coord) && valid_coord(
                t.nodes[k].coord,
            )),
        forall|k: Seq<u8>| #[trigger]
            t.roots.contains_key(k) ==> (s.roots.contains_key(k) && s.roots[k] == t.roots[k]) || k
                == frontier_key(t.roots[k].frontier),
        forall|k: Seq<u8>| #[trigger]
            t.tombstones.contains_key(k) ==> (s.tombstones.contains_key(k) && s.tombstones[k]
                == t.tombstones[k]) || k == tombstone_key(
                t.tombstones[k].frontier,
                t.tombstones[k].tombstone_node_id,
            ),
    ensures
        valid_history(t),
{
}

/// The keys of different frontiers differ.
pub proof fn lemma_frontier_key_injective(f: Frontier, g: Frontier)
    ensures
        frontier_key(f).len() == 64,
        frontier_key(f) == frontier_key(g) ==> f == g,
{
    if frontier_key(f) == frontier_key(g) {
        assert(frontier_key(f).take(32) =~= f.workspace_id@);
        assert(frontier_key(g).take(32) =~= g.workspace_id@);
        assert(frontier_key(f).skip(32) =~= f.removal_frontier_id@);
        assert(frontier_key(g).skip(32) =~= g.removal_frontier_id@);
        lemma_id_ext(f.workspace_id, g.workspace_id);
        lemma_id_ext(f.removal_frontier_id, g.removal_frontier_id);
    }
}

/// The keys of different nodes differ.
pub proof fn lemma_node_key_injective(f: Frontier, c: Coord, g: Frontier, d: Coord)
    requires
        node_key(f, c) == node_key(g, d),
    ensures
        f == g,
        c == d,
{
    let (a, b) = (node_key(f, c), node_key(g, d));
    lemma_frontier_key_injective(f, g);
    lemma_frontier_key_injective(g, f);
    assert(a.subrange(0, 64) =~= frontier_key(f));
    assert(b.subrange(0, 64) =~= frontier_key(g));
    assert(a.subrange(64, 72) =~= be64(c.range_start));
    assert(b.subrange(64, 72) =~= be64(d.range_start));
    assert(a.subrange(72, 80) =~= be64(c.range_width));
    assert(b.subrange(72, 80) =~= be64(d.range_width));
    assert(a.subrange(80, 82) =~= be16(c.bit_depth));
    assert(b.subrange(80, 82) =~= be16(d.bit_depth));
    assert(a.subrange(82, 114) =~= c.event_id_prefix@);
    assert(b.subrange(82, 114) =~= d.event_id_prefix@);
    lemma_be64_injective(c.range_start, d.range_start);
    lemma_be64_injective(c.range_width, d.range_width);
    lemma_be16_injective(c.bit_depth, d.bit_depth);
    lemma_id_ext(c.event_id_prefix, d.event_id_prefix);
}

/// The keys below a frontier are those of its nodes.
proof fn lemma_frontier_prefix(s: HistoryState, f: Frontier, k: Seq<u8>)
    requires
        valid_history(s),
        s.nodes.contains_key(k),
    ensures
        has_prefix(k, frontier_key(f)) == (s.nodes[k].frontier == f),
{
    let g = s.nodes[k].frontier;
    lemma_frontier_key_injective(g, f);
    lemma_frontier_key_injective(f, g);
    assert(k == node_key(g, s.nodes[k].coord));
    assert(k.take(64) =~= frontier_key(g));
}

/// The nodes of the history tree.
pub struct HistoryStore {
    nodes: Table<HistoryNodeRow>,
    roots: Table<KeySecretRow>,
    tombstones: Table<NodeTombstoneRow>,
}

impl View for HistoryStore {
    type V = HistoryState;

    closed spec fn view(&self) -> HistoryState {
        HistoryState {
            nodes: self.nodes@,
            roots: self.roots@,
            tombstones: self.tombstones@,
        }
    }
}

fn make_frontier_key(f: &Frontier) -> (r: Vec<u8>)
    ensures
        r@ == frontier_key(*f),
{
    id_pair(&f.workspace_id, &f.removal_frontier_id)
}

fn make_node_key(f: &Frontier, c: &Coord) -> (r: Vec<u8>)
    ensures
        r@ == node_key(*f, *c),
{
    let mut out = make_frontier_key(f);
    put_be64(&mut out, c.range_start);
    put_be64(&mut out, c.range_width);
    put_be16(&mut out, c.bit_depth);
    extend_bytes(&mut out, c.event_id_prefix.as_slice());
    out
}

fn make_tombstone_key(f: &Frontier, id: &EventId) -> (r: Vec<u8>)
    ensures
        r@ == tombstone_key(*f, *id),
{
    let mut out = make_frontier_key(f);
    extend_bytes(&mut out, id.as_slice());
    out
}

/// The rows of a frontier, in the order of their keys.
pub open spec fn frontier_rows(s: HistoryState, f: Frontier) -> Seq<HistoryNodeRow> {
    listing(with_prefix(s.nodes.dom(), frontier_key(f))).map_values(|k: Seq<u8>| s.nodes[k])
}

/// The rows that are listed for a frontier are those that are kept for it.
pub proof fn lemma_frontier_rows(s: HistoryState, f: Frontier)
    requires
        valid_history(s),
    ensures
        forall|row: HistoryNodeRow| #[trigger]
            frontier_rows(s, f).contains(row) <==> s.has_row(f, row),
{
    let dom = with_prefix(s.nodes.dom(), frontier_key(f));
    let all = listing(dom);
    let rows = frontier_rows(s, f);
    lemma_listing_exists(dom);
    assert forall|row: HistoryNodeRow| #[trigger] rows.contains(row) <==> s.has_row(f, row) by {
        if rows.contains(row) {
            let j = choose|j: int| 0 <= j < rows.len() && rows[j] == row;
            assert(all.contains(all[j]));
            assert(dom.contains(all[j]));
            lemma_frontier_prefix(s, f, all[j]);
        }
        if s.has_row(f, row) {
            let k = node_key(f, row.coord);
            lemma_frontier_prefix(s, f, k);
            assert(dom.contains(k));
            assert(all.contains(k));
            let j = choose|j: int| 0 <= j < all.len() && all[j] == k;
            assert(rows[j] == row);
        }
    }
}

/// The tombstones of a workspace, in the order of their keys.
pub open spec fn workspace_tombstones(s: HistoryState, workspace_id: EventId) -> Seq<
    NodeTombstoneRow,
> {
    listing(with_prefix(s.tombstones.dom(), workspace_id@)).map_values(
        |k: Seq<u8>| s.tombstones[k],
    )
}

impl HistoryStore {
    pub closed spec fn tables_wf(&self) -> bool {
        &&& self.nodes.wf()
        &&& self.roots.wf()
        &&& self.tombstones.wf()
    }

    /// Every row is kept under its own key, and every node at a place that a node can
    /// have.
    pub open spec fn wf(&self) -> bool {
        self.tables_wf() && valid_history(self@)
    }

    /// A store without rows.
    pub fn new() -> (s: HistoryStore)
        ensures
            s.wf(),
            s@ == (HistoryState {
                nodes: Map::empty(),
                roots: Map::empty(),
                tombstones: Map::empty(),
            }),
    {
        HistoryStore { nodes: Table::new(), roots: Table::new(), tombstones: Table::new() }
    }

    /// The frontier root.
    pub fn root(&self, f: &Frontier) -> (r: Option<KeySecretRow>)
        requires
            self.wf(),
        ensures
            r == (if self@.has_root(*f) {
                Some(self@.root(*f))
            } else {
                None
            }),
            r matches Some(row) ==> row.frontier == *f,
    {
        let r = self.roots.get(make_frontier_key(f).as_slice());
        proof {
            if self@.has_root(*f) {
                lemma_frontier_key_injective(*f, self@.root(*f).frontier);
            }
        }
        match r {
            Some(row) => Some(*row),
            None => None,
        }
    }

    /// Keep a frontier root, unless there is one.
    pub fn insert_root(&mut self, row: KeySecretRow) -> (added: bool)
        requires
            old(self).wf(),
        ensures
            final(self).wf(),
            added == !old(self)@.has_root(row.frontier),
            final(self)@ == (HistoryState {
                roots: if added {
                    old(self)@.roots.insert(frontier_key(row.frontier), row)
                } else {
                    old(self)@.roots
                },
                ..old(self)@
            }),
    {
        let r = self.roots.insert(make_frontier_key(&row.frontier), row);
        proof {
            lemma_valid_change(old(self)@, self@);
        }
        r
    }

    /// Forget a frontier root; tells whether there was one.
    pub fn delete_root(&mut self, f: &Frontier) -> (deleted: bool)
        requires
            old(self).wf(),
        ensures
            final(self).wf(),
            deleted == old(self)@.has_root(*f),
            final(self)@ == (HistoryState {
                roots: old(self)@.roots.remove(frontier_key(*f)),
                ..old(self)@
            }),
    {
        let r = self.roots.remove(make_frontier_key(f).as_slice()).is_some();
        proof {
            lemma_valid_change(old(self)@, self@);
        }
        r
    }

    /// The row of a node.
    pub fn node(&self, f: &Frontier, c: &Coord) -> (r: Option<HistoryNodeRow>)
        requires
            self.wf(),
        ensures
            r == (if self@.keeps(*f, *c) {
                Some(self@.node(*f, *c))
            } else {
                None
            }),
            r matches Some(row) ==> row.frontier == *f && row.coord == *c && valid_coord(*c),
    {
        let r = self.nodes.get(make_node_key(f, c).as_slice());
        proof {
            if self@.keeps(*f, *c) {
                let row = self@.node(*f, *c);
                lemma_node_key_injective(row.frontier, row.coord, *f, *c);
            }
        }
        match r {
            Some(row) => Some(*row),
            None => None,
        }
    }

    /// Keep a node, unless its place is taken.
    pub fn insert_node(&mut self, row: HistoryNodeRow) -> (added: bool)
        requires
            old(self).wf(),
            valid_coord(row.coord),
        ensures
            final(self).wf(),
            added == !old(self)@.keeps(row.frontier, row.coord),
            final(self)@ == (HistoryState {
                nodes: if added {
                    old(self)@.nodes.insert(node_key(row.frontier, row.coord), row)
                } else {
                    old(self)@.nodes
                },
                ..old(self)@
            }),
    {
        let r = self.nodes.insert(make_node_key(&row.frontier, &row.coord), row);
        proof {
            lemma_valid_change(old(self)@, self@);
        }
        r
    }

    /// Forget a node; tells whether it was kept.
    pub fn delete_node(&mut self, f: &Frontier, c: &Coord) -> (deleted: bool)
        requires
            old(self).wf(),
        ensures
            final(self).wf(),
            deleted == old(self)@.keeps(*f, *c),
            final(self)@ == (HistoryState {
                nodes: old(self)@.nodes.remove(node_key(*f, *c)),
                ..old(self)@
            }),
    {
        let r = self.nodes.remove(make_node_key(f, c).as_slice()).is_some();
        proof {
            lemma_valid_change(old(self)@, self@);
        }
        r
    }

    /// Write a tombstone, unless its node has one.
    pub fn insert_tombstone(&mut self, row: NodeTombstoneRow) -> (added: bool)
        requires
            old(self).wf(),
        ensures
            final(self).wf(),
            added == !old(self)@.tombstones.contains_key(
                tombstone_key(row.frontier, row.tombstone_node_id),
            ),
            final(self)@ == (HistoryState {
                tombstones: if added {
                    old(self)@.tombstones.insert(
                        tombstone_key(row.frontier, row.tombstone_node_id),
                        row,
                    )
                } else {
                    old(self)@.tombstones
                },
                ..old(self)@
            }),
    {
        let r = self.tombstones.insert(make_tombstone_key(&row.frontier, &row.tombstone_node_id), row);
        proof {
            lemma_valid_change(old(self)@, self@);
        }
        r
    }

    /// Remove a tombstone; tells whether it was there.
    pub fn delete_tombstone(&mut self, f: &Frontier, id: &EventId) -> (deleted: bool)
        requires
            old(self).wf(),
        ensures
            final(self).wf(),
            deleted == old(self)@.tombstones.contains_key(tombstone_key(*f, *id)),
            final(self)@ == (HistoryState {
                tombstones: old(self)@.tombstones.remove(tombstone_key(*f, *id)),
                ..old(self)@
            }),
    {
        let r = self.tombstones.remove(make_tombstone_key(f, id).as_slice()).is_some();
        proof {
            lemma_valid_change(old(self)@, self@);
        }
        r
    }

    /// The kept nodes of a frontier, in the order of their keys.
    pub fn list_for_frontier(&self, f: &Frontier) -> (r: Vec<HistoryNodeRow>)
        requires
            self.wf(),
        ensures
            r@ == frontier_rows(self@, *f),
            forall|row: HistoryNodeRow| #[trigger] r@.contains(row) <==> self@.has_row(*f, row),
    {
        let limit: usize = usize::MAX;
        let keys = self.nodes.keys_with_prefix(make_frontier_key(f).as_slice(), limit);
        let ghost dom = with_prefix(self@.nodes.dom(), frontier_key(*f));
        let ghost all = listing(dom);
        let mut out: Vec<HistoryNodeRow> = Vec::new();
        let mut i: usize = 0;
        assert(all == key_views(keys@));
        while i < keys.len()
            invariant
                self.wf(),
                i <= keys@.len(),
                dom == with_prefix(self@.nodes.dom(), frontier_key(*f)),
                all == listing(dom),
                is_listing(all, dom),
                all == key_views(keys@),
                out@ == all.take(i as int).map_values(|k: Seq<u8>| self@.nodes[k]),
            decreases keys.len() - i,
        {
            proof {
                assert(all[i as int] == keys@[i as int]@);
                assert(all.contains(all[i as int]));
                assert(dom.contains(all[i as int]));
            }
            let row = *self.nodes.get(keys[i].as_slice()).unwrap();
            out.push(row);
            proof {
                assert(all.take(i + 1) =~= all.take(i as int).push(all[i as int]));
                assert(out@ =~= all.take(i + 1).map_values(|k: Seq<u8>| self@.nodes[k]));
            }
            i = i + 1;
        }
        proof {
            assert(all.take(i as int) =~= all);
            assert(out@ =~= frontier_rows(self@, *f));
            lemma_frontier_rows(self@, *f);
        }
        out
    }

    /// The tombstones of a workspace, in the order of their keys.
    pub fn list_tombstones_for_workspace(&self, workspace_id: &EventId) -> (r: Vec<
        NodeTombstoneRow,
    >)
        requires
            self.wf(),
        ensures
            r@ == workspace_tombstones(self@, *workspace_id),
            forall|row: NodeTombstoneRow| #[trigger]
                r@.contains(row) <==> row.frontier.workspace_id == *workspace_id
                    && self@.tombstones.contains_key(
                    tombstone_key(row.frontier, row.tombstone_node_id),
                ) && self@.tombstones[tombstone_key(row.frontier, row.tombstone_node_id)] == row,
            forall|i: int, j: int|
                0 <= i < j < r@.len() ==> tombstone_key(
                    (#[trigger] r@[i]).frontier,
                    r@[i].tombstone_node_id,
                ) != tombstone_key((#[trigger] r@[j]).frontier, r@[j].tombstone_node_id),
    {
        let limit: usize = usize::MAX;
        let keys = self.tombstones.keys_with_prefix(workspace_id.as_slice(), limit);
        let ghost dom = with_prefix(self@.tombstones.dom(), workspace_id@);
        let ghost all = listing(dom);
        let mut out: Vec<NodeTombstoneRow> = Vec::new();
        let mut i: usize = 0;
        assert(all == key_views(keys@));
        while i < keys.len()
            invariant
                self.wf(),
                i <= keys@.len(),
                dom == with_prefix(self@.tombstones.dom(), workspace_id@),
                all == listing(dom),
                is_listing(all, dom),
                all == key_views(keys@),
                out@ == all.take(i as int).map_values(|k: Seq<u8>| self@.tombstones[k]),
            decreases keys.len() - i,
        {
            proof {
                assert(all[i as int] == keys@[i as int]@);
                assert(all.contains(all[i as int]));
                assert(dom.contains(all[i as int]));
            }
            let row = *self.tombstones.get(keys[i].as_slice()).unwrap();
            out.push(row);
            proof {
                assert(all.take(i + 1) =~= all.take(i as int).push(all[i as int]));
                assert(out@ =~= all.take(i + 1).map_values(|k: Seq<u8>| self@.tombstones[k]));
            }
            i = i + 1;
        }
        proof {
            assert(all.take(i as int) =~= all);
            assert forall|k: Seq<u8>| #[trigger] self@.tombstones.contains_key(k) implies has_prefix(
                k,
                workspace_id@,
            ) == (self@.tombstones[k].frontier.workspace_id == *workspace_id) by {
                let row = self@.tombstones[k];
                assert(k.take(32) =~= row.frontier.workspace_id@);
                lemma_id_ext(row.frontier.workspace_id, *workspace_id);
            }
            assert forall|row: NodeTombstoneRow| #[trigger]
                out@.contains(row) <==> row.frontier.workspace_id == *workspace_id
                    && self@.tombstones.contains_key(
                    tombstone_key(row.frontier, row.tombstone_node_id),
                ) && self@.tombstones[tombstone_key(row.frontier, row.tombstone_node_id)] == row by {
                if out@.contains(row) {
                    let j = choose|j: int| 0 <= j < out@.len() && out@[j] == row;
                    assert(all.contains(all[j]));
                    assert(dom.contains(all[j]));
                }
                let k = tombstone_key(row.frontier, row.tombstone_node_id);
                if row.frontier.workspace_id == *workspace_id && self@.tombstones.contains_key(k)
                    && self@.tombstones[k] == row {
                    assert(dom.contains(k));
                    assert(all.contains(k));
                    let j = choose|j: int| 0 <= j < all.len() && all[j] == k;
                    assert(out@[j] == row);
                }
            }
            crate::table::lemma_ascending_distinct(all);
            assert forall|i: int, j: int| 0 <= i < j < out@.len() implies tombstone_key(
                (#[trigger] out@[i]).frontier,
                out@[i].tombstone_node_id,
            ) != tombstone_key((#[trigger] out@[j]).frontier, out@[j].tombstone_node_id) by {
                assert(all.contains(all[i]) && all.contains(all[j]));
                assert(dom.contains(all[i]) && dom.contains(all[j]));
                assert(all[i] != all[j]);
            }
        }
        out
    }
}

} // verus!
