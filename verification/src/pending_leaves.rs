//! Deriving the leaves that blocked content events wait for.
//!
//! A content event names the leaf of the history tree that holds its key. When such an event
//! arrives before its leaf it is blocked; the drain here derives the leaf, which releases it.
use vstd::prelude::*;
use crate::bytes::{id_at, id_eq, EventId};
use crate::connection_facts::is_type;
use crate::content_events::{
    decode_file, decode_message, decode_reaction, decoded_file, decoded_message, decoded_reaction,
    file_coordinate, file_event_id_in_minute, message_coordinate, message_event_id_in_minute,
    reaction_coordinate, reaction_event_id_in_minute, TYPE_SIGNED_FILE, TYPE_SIGNED_MESSAGE,
    TYPE_SIGNED_REACTION,
};
use crate::event_store::{edge_keys, EventStore};
use crate::events::saturated;
use crate::history::{leaf_coord, Frontier};
use crate::history_laws::{law_leaf_is_had_where_it_can_be, vault_grows};
use crate::history_store::HistoryStore;
use crate::history_tree::{derive_event_leaf, leaf_outcome, vault, Vault};
use crate::table::{
    at_most, countable, key_views, lemma_ascending_distinct, lemma_listing_exists, listing,
};

verus! {

/// The leaf that a content event names, and where it lies.
#[derive(Debug, Clone, Copy, PartialEq, Eq)]
pub struct LeafRequest {
    pub frontier: Frontier,
    pub created_at_ms: u64,
    pub leaf_id: EventId,
    pub event_id_in_minute: EventId,
}

/// The leaf that some bytes name: those of a message, a reaction or a file that can be read.
pub open spec fn leaf_request(bytes: Seq<u8>) -> Option<LeafRequest> {
    if is_type(bytes, TYPE_SIGNED_MESSAGE) {
        match decoded_message(bytes) {
            Err(_) => None,
            Ok(m) => Some(
                LeafRequest {
                    frontier: Frontier {
                        workspace_id: m.workspace_id,
                        removal_frontier_id: m.removal_frontier_id,
                    },
                    created_at_ms: m.created_at_ms,
                    leaf_id: m.local_history_node_secret_id,
                    event_id_in_minute: message_coordinate(
                        m.workspace_id,
                        m.author_user_id,
                        m.removal_frontier_id,
                        m.created_at_ms,
                    ),
                },
            ),
        }
    } else if is_type(bytes, TYPE_SIGNED_REACTION) {
        match decoded_reaction(bytes) {
            Err(_) => None,
            Ok(m) => Some(
                LeafRequest {
                    frontier: Frontier {
                        workspace_id: m.workspace_id,
                        removal_frontier_id: m.removal_frontier_id,
                    },
                    created_at_ms: m.created_at_ms,
                    leaf_id: m.local_history_node_secret_id,
                    event_id_in_minute: reaction_coordinate(
                        m.workspace_id,
                        m.author_user_id,
                        m.target_message_id,
                        m.removal_frontier_id,
                        m.created_at_ms,
                    ),
                },
            ),
        }
    } else if is_type(bytes, TYPE_SIGNED_FILE) {
        match decoded_file(bytes) {
            Err(_) => None,
            Ok(m) => Some(
                LeafRequest {
                    frontier: Frontier {
                        workspace_id: m.workspace_id,
                        removal_frontier_id: m.removal_frontier_id,
                    },
                    created_at_ms: m.created_at_ms,
                    leaf_id: m.local_history_node_secret_id,
                    event_id_in_minute: file_coordinate(m),
                },
            ),
        }
    } else {
        None
    }
}

/// Find the leaf that some bytes name.
fn find_leaf_request(bytes: &Vec<u8>) -> (r: Option<LeafRequest>)
    ensures
        r == leaf_request(bytes@),
{
    if bytes.len() == 0 {
        return None;
    }
    match bytes[0] {
        TYPE_SIGNED_MESSAGE => match decode_message(bytes.as_slice()) {
            Err(_) => None,
            Ok(m) => Some(
                LeafRequest {
                    frontier: Frontier {
                        workspace_id: m.workspace_id,
                        removal_frontier_id: m.removal_frontier_id,
                    },
                    created_at_ms: m.created_at_ms,
                    leaf_id: m.local_history_node_secret_id,
                    event_id_in_minute: message_event_id_in_minute(
                        &m.workspace_id,
                        &m.author_user_id,
                        &m.removal_frontier_id,
                        m.created_at_ms,
                    ),
                },
            ),
        },
        TYPE_SIGNED_REACTION => match decode_reaction(bytes.as_slice()) {
            Err(_) => None,
            Ok(m) => Some(
                LeafRequest {
                    frontier: Frontier {
                        workspace_id: m.workspace_id,
                        removal_frontier_id: m.removal_frontier_id,
                    },
                    created_at_ms: m.created_at_ms,
                    leaf_id: m.local_history_node_secret_id,
                    event_id_in_minute: reaction_event_id_in_minute(
                        &m.workspace_id,
                        &m.author_user_id,
                        &m.target_message_id,
                        &m.removal_frontier_id,
                        m.created_at_ms,
                    ),
                },
            ),
        },
        TYPE_SIGNED_FILE => match decode_file(bytes.as_slice()) {
            Err(_) => None,
            Ok(m) => Some(
                LeafRequest {
                    frontier: Frontier {
                        workspace_id: m.workspace_id,
                        removal_frontier_id: m.removal_frontier_id,
                    },
                    created_at_ms: m.created_at_ms,
                    leaf_id: m.local_history_node_secret_id,
                    event_id_in_minute: file_event_id_in_minute(&m),
                },
            ),
        },
        _ => None,
    }
}

/// What a drain of pending leaves counted.
#[derive(Debug, Clone, Copy, PartialEq, Eq)]
pub struct DrainPendingLeavesReport {
    pub scanned_events: usize,
    pub derived_leaves: usize,
    pub admitted_events: usize,
}

/// What a drain of pending leaves counted, without machine limits.
pub struct LeafTally {
    pub scanned: nat,
    pub derived: nat,
    pub admitted: nat,
    /// Some event was stored, for the leaf that was asked for or for another.
    pub stored: bool,
}

impl DrainPendingLeavesReport {
    /// A report holds some counts.
    pub open spec fn holds(&self, t: LeafTally) -> bool {
        &&& self.scanned_events == t.scanned
        &&& self.derived_leaves == t.derived
        &&& self.admitted_events == saturated(t.admitted as int)
    }
}

/// The leaf that a waiting event names, when the leaf is to be derived: the event is stored
/// and names one, its frontier has a root, and the leaf is not stored.
pub open spec fn leaf_to_derive(v: Vault, blocked: Seq<u8>) -> Option<LeafRequest> {
    if !v.events.events.contains_key(blocked) {
        None
    } else {
        match leaf_request(v.events.events[blocked].canonical_bytes) {
            None => None,
            Some(q) => if v.history.has_root(q.frontier) && !v.events.events.contains_key(
                q.leaf_id@,
            ) {
                Some(q)
            } else {
                None
            },
        }
    }
}

/// Whether a waiting event names a leaf at all.
pub open spec fn names_leaf(v: Vault, blocked: Seq<u8>) -> bool {
    v.events.events.contains_key(blocked) && leaf_request(
        v.events.events[blocked].canonical_bytes,
    ) is Some
}

/// The vault and the counts after the edges in front of place `n` are dealt with; or the vault
/// where a leaf cannot be derived, whether an event was stored before, and why. Not more than
/// `batch` events that name a leaf are looked at.
pub open spec fn leaves_drained(v: Vault, keys: Seq<Seq<u8>>, batch: nat, n: int) -> Result<
    (Vault, LeafTally),
    (Vault, bool, Seq<char>),
>
    decreases n,
{
    if n <= 0 {
        Ok((v, LeafTally { scanned: 0, derived: 0, admitted: 0, stored: false }))
    } else {
        match leaves_drained(v, keys, batch, n - 1) {
            Err(e) => Err(e),
            Ok((w, t)) => {
                let blocked = keys[n - 1].skip(32);
                if t.scanned >= batch || !names_leaf(w, blocked) {
                    Ok((w, t))
                } else {
                    let seen = LeafTally { scanned: t.scanned + 1, ..t };
                    match leaf_to_derive(w, blocked) {
                        None => Ok((w, seen)),
                        Some(q) => match leaf_outcome(
                            w,
                            q.frontier,
                            q.created_at_ms,
                            q.event_id_in_minute,
                        ) {
                            Err(e) => Err((w, t.stored, e)),
                            Ok((after, report)) => {
                                let kept = LeafTally {
                                    stored: t.stored || report.admitted_events > 0,
                                    ..seen
                                };
                                if report.local_history_node_secret_id == Some(q.leaf_id) {
                                    Ok(
                                        (
                                            after,
                                            LeafTally {
                                                derived: t.derived + 1,
                                                admitted: t.admitted
                                                    + report.admitted_events as nat,
                                                ..kept
                                            },
                                        ),
                                    )
                                } else {
                                    Ok((after, kept))
                                }
                            },
                        },
                    }
                }
            },
        }
    }
}

proof fn lemma_drain_fails(v: Vault, keys: Seq<Seq<u8>>, batch: nat, m: int, n: int)
    requires
        m <= n,
        leaves_drained(v, keys, batch, m) is Err,
    ensures
        leaves_drained(v, keys, batch, n) == leaves_drained(v, keys, batch, m),
    decreases n - m,
{
    if m < n {
        lemma_drain_fails(v, keys, batch, m, n - 1);
    }
}

proof fn lemma_drain_full(v: Vault, keys: Seq<Seq<u8>>, batch: nat, m: int, n: int)
    requires
        m <= n,
        leaves_drained(v, keys, batch, m) matches Ok((_, t)) && t.scanned >= batch,
    ensures
        leaves_drained(v, keys, batch, n) == leaves_drained(v, keys, batch, m),
    decreases n - m,
{
    if m < n {
        lemma_drain_full(v, keys, batch, m, n - 1);
    }
}

/// Derive the leaves that blocked content events name: go through the first `batch_size`
/// edges. An event whose frontier has no root, or whose leaf is stored, is passed over.
/// Tells beside the report whether an event was stored.
pub fn drain_pending_message_leaves(
    history: &mut HistoryStore,
    events: &mut EventStore,
    batch_size: usize,
) -> (r: (Result<DrainPendingLeavesReport, String>, bool))
    requires
        old(history).wf(),
        old(events).wf(),
    ensures
        final(history).wf(),
        final(events).wf(),
        ({
            let v = vault(*old(history), *old(events));
            let keys = at_most(listing(edge_keys(v.events.edges)), batch_size);
            match leaves_drained(v, keys, batch_size as nat, keys.len() as int) {
                Ok((after, t)) => {
                    &&& r.0 matches Ok(report) && report.holds(t)
                    &&& r.1 == t.stored
                    &&& vault(*final(history), *final(events)) == after
                },
                Err((after, stored, e)) => {
                    &&& r.0 matches Err(x) && x@ == e
                    &&& r.1 == stored
                    &&& vault(*final(history), *final(events)) == after
                },
            }
        }),
{
    let keys = events.blocked_edge_keys(batch_size);
    let ghost v = vault(*history, *events);
    let ghost all = key_views(keys@);
    let ghost mut t = LeafTally { scanned: 0, derived: 0, admitted: 0, stored: false };
    let mut report = DrainPendingLeavesReport {
        scanned_events: 0,
        derived_leaves: 0,
        admitted_events: 0,
    };
    let mut stored = false;
    let mut i: usize = 0;
    while i < keys.len()
        invariant
            history.wf(),
            events.wf(),
            i <= keys@.len(),
            all == key_views(keys@),
            v == vault(*old(history), *old(events)),
            all == at_most(listing(edge_keys(v.events.edges)), batch_size),
            forall|j: int| 0 <= j < keys@.len() ==> (#[trigger] keys@[j])@.len() == 64,
            leaves_drained(v, all, batch_size as nat, i as int) == Ok::<
                (Vault, LeafTally),
                (Vault, bool, Seq<char>),
            >((vault(*history, *events), t)),
            report.holds(t),
            stored == t.stored,
            t.scanned <= i,
            t.derived <= i,
        decreases keys.len() - i,
    {
        assert(all[i as int] == keys@[i as int]@);
        if report.scanned_events >= batch_size {
            proof {
                lemma_drain_full(v, all, batch_size as nat, i as int, all.len() as int);
            }
            return (Ok(report), stored);
        }
        let blocked = id_at(keys[i].as_slice(), 32);
        assert(blocked@ =~= all[i as int].skip(32));
        let ghost before = vault(*history, *events);
        let request = match events.event_bytes(&blocked) {
            Some(bytes) => find_leaf_request(&bytes),
            None => None,
        };
        if let Some(q) = request {
            report.scanned_events = report.scanned_events + 1;
            proof {
                t = LeafTally { scanned: t.scanned + 1, ..t };
            }
            if history.root(&q.frontier).is_some() && !events.has_event(&q.leaf_id) {
                match derive_event_leaf(
                    history,
                    events,
                    q.frontier,
                    q.created_at_ms,
                    q.event_id_in_minute,
                ) {
                    Ok(derived) => {
                        if derived.admitted_events > 0 {
                            stored = true;
                        }
                        proof {
                            t = LeafTally { stored, ..t };
                        }
                        let found = match &derived.local_history_node_secret_id {
                            Some(id) => id_eq(id, &q.leaf_id),
                            None => false,
                        };
                        if found {
                            report.derived_leaves = report.derived_leaves + 1;
                            report.admitted_events = report.admitted_events.saturating_add(
                                derived.admitted_events,
                            );
                            proof {
                                t = LeafTally {
                                    derived: t.derived + 1,
                                    admitted: t.admitted + derived.admitted_events as nat,
                                    ..t
                                };
                            }
                        }
                    },
                    Err(e) => {
                        proof {
                            lemma_drain_fails(v, all, batch_size as nat, i + 1, all.len() as int);
                        }
                        return (Err(e), stored);
                    },
                }
            }
        }
        i = i + 1;
    }
    (Ok(report), stored)
}

/// Some bytes are a message, a reaction or a file that names a leaf.
pub open spec fn asks_for(
    bytes: Seq<u8>,
    frontier: Frontier,
    created_at_ms: u64,
    leaf_id: EventId,
    event_id_in_minute: EventId,
) -> bool {
    ||| bytes.len() > 0 && bytes[0] == TYPE_SIGNED_MESSAGE && (decoded_message(bytes) matches Ok(m)
        && m.workspace_id == frontier.workspace_id && m.removal_frontier_id
        == frontier.removal_frontier_id && m.created_at_ms == created_at_ms
        && m.local_history_node_secret_id == leaf_id && event_id_in_minute == message_coordinate(
        m.workspace_id,
        m.author_user_id,
        m.removal_frontier_id,
        m.created_at_ms,
    ))
    ||| bytes.len() > 0 && bytes[0] == TYPE_SIGNED_REACTION && (decoded_reaction(
        bytes,
    ) matches Ok(m) && m.workspace_id == frontier.workspace_id && m.removal_frontier_id
        == frontier.removal_frontier_id && m.created_at_ms == created_at_ms
        && m.local_history_node_secret_id == leaf_id && event_id_in_minute == reaction_coordinate(
        m.workspace_id,
        m.author_user_id,
        m.target_message_id,
        m.removal_frontier_id,
        m.created_at_ms,
    ))
    ||| bytes.len() > 0 && bytes[0] == TYPE_SIGNED_FILE && (decoded_file(bytes) matches Ok(m)
        && m.workspace_id == frontier.workspace_id && m.removal_frontier_id
        == frontier.removal_frontier_id && m.created_at_ms == created_at_ms
        && m.local_history_node_secret_id == leaf_id && event_id_in_minute == file_coordinate(m))
}

/// An event asks for the leaf that its bytes name: every message, reaction and file that can be
/// read asks for one, and nothing else does.
pub proof fn law_content_asks_for_its_leaf(
    bytes: Seq<u8>,
    frontier: Frontier,
    created_at_ms: u64,
    leaf_id: EventId,
    event_id_in_minute: EventId,
)
    ensures
        asks_for(bytes, frontier, created_at_ms, leaf_id, event_id_in_minute) <==> leaf_request(
            bytes,
        ) == Some(LeafRequest { frontier, created_at_ms, leaf_id, event_id_in_minute }),
{
    assert(TYPE_SIGNED_MESSAGE != TYPE_SIGNED_REACTION);
    assert(TYPE_SIGNED_MESSAGE != TYPE_SIGNED_FILE);
    assert(TYPE_SIGNED_REACTION != TYPE_SIGNED_FILE);
}

/// The leaf that some bytes name is here: its event is stored, or its row is kept.
pub open spec fn leaf_is_here(v: Vault, q: LeafRequest) -> bool {
    v.events.events.contains_key(q.leaf_id@) || v.history.keeps(
        q.frontier,
        leaf_coord((q.created_at_ms as int / 60_000) as u64, q.event_id_in_minute),
    )
}

/// A drain of pending leaves that does not fail leaves no leaf out: every event that waits along
/// one of the edges, names a leaf and has a root for its frontier, finds its leaf afterwards. What
/// was here stays here.
pub proof fn law_every_pending_leaf_is_derived(v: Vault, keys: Seq<Seq<u8>>, batch: nat, n: int)
    requires
        0 <= n <= keys.len() <= batch,
    ensures
        leaves_drained(v, keys, batch, n) matches Ok((after, t)) ==> {
            &&& t.scanned <= n
            &&& vault_grows(v, after)
            &&& forall|i: int|
                #![trigger keys[i]]
                0 <= i < n && v.events.events.contains_key(keys[i].skip(32)) ==> (match leaf_request(
                    v.events.events[keys[i].skip(32)].canonical_bytes,
                ) {
                    Some(q) => v.history.roots.contains_key(
                        q.frontier.workspace_id@ + q.frontier.removal_frontier_id@,
                    ) ==> leaf_is_here(after, q),
                    None => true,
                })
        },
    decreases n,
{
    if n > 0 {
        law_every_pending_leaf_is_derived(v, keys, batch, n - 1);
        if let Ok((w, t)) = leaves_drained(v, keys, batch, n - 1) {
            if let Ok((after, _)) = leaves_drained(v, keys, batch, n) {
                let blocked = keys[n - 1].skip(32);
                assert(vault_grows(w, after)) by {
                    if let Some(q) = leaf_to_derive(w, blocked) {
                        law_leaf_is_had_where_it_can_be(
                            w,
                            q.frontier,
                            q.created_at_ms,
                            q.event_id_in_minute,
                        );
                    }
                }
                assert forall|i: int|
                    #![trigger keys[i]]
                    0 <= i < n && v.events.events.contains_key(keys[i].skip(32)) implies (
                match leaf_request(v.events.events[keys[i].skip(32)].canonical_bytes) {
                    Some(q) => v.history.roots.contains_key(
                        q.frontier.workspace_id@ + q.frontier.removal_frontier_id@,
                    ) ==> leaf_is_here(after, q),
                    None => true,
                }) by {
                    if i == n - 1 {
                        if let Some(q) = leaf_request(
                            v.events.events[blocked].canonical_bytes,
                        ) {
                            assert(w.events.events.contains_key(blocked));
                            law_leaf_is_had_where_it_can_be(
                                w,
                                q.frontier,
                                q.created_at_ms,
                                q.event_id_in_minute,
                            );
                        }
                    } else {
                        if let Some(q) = leaf_request(
                            v.events.events[keys[i].skip(32)].canonical_bytes,
                        ) {
                            if v.history.roots.contains_key(
                                q.frontier.workspace_id@ + q.frontier.removal_frontier_id@,
                            ) {
                                assert(leaf_is_here(w, q));
                            }
                        }
                    }
                }
            }
        }
    }
}

/// A drain looks along every edge, where the batch is large enough: each event that waits for
/// another is dealt with.
pub proof fn law_drain_looks_along_every_edge(
    edges: Set<(Seq<u8>, Seq<u8>)>,
    batch_size: usize,
    missing: EventId,
    blocked: EventId,
)
    requires
        countable(edge_keys(edges)),
        edge_keys(edges).len() <= batch_size,
        edges.contains((missing@, blocked@)),
    ensures
        exists|i: int|
            0 <= i < at_most(listing(edge_keys(edges)), batch_size).len() && (#[trigger] at_most(
                listing(edge_keys(edges)),
                batch_size,
            )[i]).skip(32) == blocked@,
{
    let dom = edge_keys(edges);
    let key = missing@ + blocked@;
    lemma_listing_exists(dom);
    let all = listing(dom);
    lemma_ascending_distinct(all);
    all.unique_seq_to_set();
    assert(all.to_set() =~= dom);
    assert(key.take(32) =~= missing@);
    assert(key.skip(32) =~= blocked@);
    assert(dom.contains(key));
    let i = choose|i: int| 0 <= i < all.len() && all[i] == key;
    assert(at_most(all, batch_size)[i] == key);
}

} // verus!
