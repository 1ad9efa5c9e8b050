//! Opening wrapped workspace secrets.
//!
//! A wrap is opened with the private half of the key that it was made for; that is done
//! outside, for each wrap that `wraps_to_open` lists. What came out is checked here against
//! the id that the wrap promises, and admitted as the root of its frontier.
use vstd::prelude::*;
use crate::bytes::{has_prefix, id_at, id_eq, id_pair, id_with, lemma_id_of, lemma_id_with, EventId};
use crate::event_store::{EventRow, EventStore};
use crate::hash::event_id_of;
use crate::history::{
    encode_key_secret, key_secret_bytes, key_secret_row, make_key_secret_row, Frontier,
    KeySecretRow,
};
use crate::history_store::{frontier_key, lemma_frontier_key_injective, HistoryState, HistoryStore};
use crate::history_tree::{event_applied, vault, Vault};
use crate::keys::{
    find_local_key, lemma_values_under, list_under, local_key_for, values_under, KeyState, KeyStore,
    KeyWrapRow, LocalRecipientKeyRow,
};
use crate::table::{
    at_most, countable, is_listing, key_views, lemma_ascending_distinct, lemma_listing_exists,
    lemma_listing_is, lemma_prefix_listed, listing, with_prefix, Table,
};
use crate::types::{EventRecord, EventScope, EventStatus};
use crate::unblocking::unblock_dependents;

verus! {

/// What can be done about a wrap that waits to be opened.
#[derive(Debug, Clone, Copy, PartialEq, Eq)]
pub enum Attempt {
    /// The wrap is gone.
    Gone,
    /// Another wrap has taken its place.
    Mismatched,
    /// Its frontier has a root already.
    Known,
    /// The recipient key, or its private half, is not here.
    Unready,
    /// It can be opened with a private key of this device.
    Open { row: KeyWrapRow, local: LocalRecipientKeyRow },
}

/// The frontier that a wrap is for.
pub open spec fn wrap_frontier(row: KeyWrapRow) -> Frontier {
    Frontier { workspace_id: row.workspace_id, removal_frontier_id: row.removal_frontier_id }
}

/// What can be done about a wrap that waits under a key.
pub open spec fn attempt_of(k: KeyState, h: HistoryState, key: Seq<u8>, key_wrap_id: EventId) -> Attempt {
    if !k.wraps.contains_key(key) {
        Attempt::Gone
    } else if k.wraps[key].key_wrap_id != key_wrap_id {
        Attempt::Mismatched
    } else if h.has_root(wrap_frontier(k.wraps[key])) {
        Attempt::Known
    } else {
        let row = k.wraps[key];
        let recipient = row.workspace_id@ + row.recipient_key_id@;
        if !k.recipients.contains_key(recipient) {
            Attempt::Unready
        } else {
            match local_key_for(
                values_under(k.locals, row.workspace_id@),
                k.recipients[recipient].recipient_key,
            ) {
                None => Attempt::Unready,
                Some(local) => Attempt::Open { row, local },
            }
        }
    }
}

/// Find out what can be done about a wrap that waits under a key.
fn classify(keys: &KeyStore, history: &HistoryStore, key: &Vec<u8>, key_wrap_id: &EventId) -> (r:
    Attempt)
    requires
        keys.wf(),
        history.wf(),
    ensures
        r == attempt_of(keys@, history@, key@, *key_wrap_id),
{
    let row = match keys.wraps.get(key.as_slice()) {
        Some(row) => *row,
        None => {
            return Attempt::Gone;
        },
    };
    if !id_eq(&row.key_wrap_id, key_wrap_id) {
        return Attempt::Mismatched;
    }
    let frontier = Frontier {
        workspace_id: row.workspace_id,
        removal_frontier_id: row.removal_frontier_id,
    };
    if history.root(&frontier).is_some() {
        return Attempt::Known;
    }
    let recipient_key = match keys.recipients.get(
        id_pair(&row.workspace_id, &row.recipient_key_id).as_slice(),
    ) {
        Some(recipient) => recipient.recipient_key,
        None => {
            return Attempt::Unready;
        },
    };
    let locals = list_under(&keys.locals, row.workspace_id.as_slice());
    match find_local_key(&locals, &recipient_key) {
        Some(local) => Attempt::Open { row, local },
        None => Attempt::Unready,
    }
}

/// The keys of the wraps that one drain looks at: the first ones that wait, at least one.
pub open spec fn pending_keys(k: KeyState, batch_size: usize) -> Seq<Seq<u8>> {
    at_most(
        listing(with_prefix(k.pending.dom(), Seq::empty())),
        if batch_size == 0 {
            1
        } else {
            batch_size
        },
    )
}

fn list_pending_unwraps(keys: &KeyStore, batch_size: usize) -> (r: Vec<Vec<u8>>)
    requires
        keys.wf(),
    ensures
        key_views(r@) == pending_keys(keys@, batch_size),
        forall|i: int| 0 <= i < r@.len() ==> keys@.pending.contains_key((#[trigger] r@[i])@),
{
    let empty: Vec<u8> = Vec::new();
    let limit: usize = if batch_size == 0 {
        1
    } else {
        batch_size
    };
    let r = keys.pending.keys_with_prefix(empty.as_slice(), limit);
    proof {
        assert(empty@ =~= Seq::<u8>::empty());
        let dom = with_prefix(keys@.pending.dom(), Seq::empty());
        let all = listing(dom);
        assert forall|i: int| 0 <= i < r@.len() implies keys@.pending.contains_key(
            (#[trigger] r@[i])@,
        ) by {
            assert(key_views(r@).len() == r@.len());
            assert(key_views(r@)[i] == r@[i]@);
            assert(all.contains(all[i]));
            assert(dom.contains(all[i]));
        }
    }
    r
}

/// The wraps among the first `n` that wait which can be opened, each with the private key.
pub open spec fn openable(k: KeyState, h: HistoryState, keys: Seq<Seq<u8>>, n: int) -> Seq<
    (KeyWrapRow, LocalRecipientKeyRow),
>
    decreases n,
{
    if n <= 0 {
        Seq::empty()
    } else {
        let rest = openable(k, h, keys, n - 1);
        match attempt_of(k, h, keys[n - 1], k.pending[keys[n - 1]]) {
            Attempt::Open { row, local } => rest.push((row, local)),
            _ => rest,
        }
    }
}

/// List the wraps that a drain would open, each with the private key that opens it.
pub fn wraps_to_open(keys: &KeyStore, history: &HistoryStore, batch_size: usize) -> (r: Vec<
    (KeyWrapRow, LocalRecipientKeyRow),
>)
    requires
        keys.wf(),
        history.wf(),
    ensures
        r@ == openable(
            keys@,
            history@,
            pending_keys(keys@, batch_size),
            pending_keys(keys@, batch_size).len() as int,
        ),
{
    let pending = list_pending_unwraps(keys, batch_size);
    let ghost all = key_views(pending@);
    let mut out: Vec<(KeyWrapRow, LocalRecipientKeyRow)> = Vec::new();
    let mut i: usize = 0;
    while i < pending.len()
        invariant
            keys.wf(),
            history.wf(),
            i <= pending@.len(),
            all == key_views(pending@),
            forall|j: int|
                0 <= j < pending@.len() ==> keys@.pending.contains_key((#[trigger] pending@[j])@),
            out@ == openable(keys@, history@, all, i as int),
        decreases pending.len() - i,
    {
        assert(all[i as int] == pending@[i as int]@);
        let key_wrap_id = keys.pending.get(pending[i].as_slice()).unwrap().key_wrap_id;
        if let Attempt::Open { row, local } = classify(keys, history, &pending[i], &key_wrap_id) {
            out.push((row, local));
        }
        i = i + 1;
    }
    out
}

/// The stored event behind a key secret.
pub open spec fn key_secret_event(row: KeySecretRow) -> EventRow {
    EventRow {
        timestamp: 0,
        status: EventStatus::Applied,
        scope: EventScope::Local,
        workspace_id: Some(row.frontier.workspace_id),
        canonical_bytes: key_secret_bytes(row.frontier, row.key_secret),
    }
}

/// The vault with a key secret admitted: its event applied unless its id is known, its row the
/// root of its frontier unless there is one.
pub open spec fn key_secret_admitted(v: Vault, row: KeySecretRow) -> Vault {
    Vault {
        history: HistoryState {
            roots: if v.history.has_root(row.frontier) {
                v.history.roots
            } else {
                v.history.roots.insert(frontier_key(row.frontier), row)
            },
            ..v.history
        },
        events: event_applied(v.events, row.local_key_secret_id@, key_secret_event(row)),
    }
}

/// How many events the admission of a key secret stores.
pub open spec fn key_secret_events(v: Vault, row: KeySecretRow) -> nat {
    if v.events.events.contains_key(row.local_key_secret_id@) {
        0
    } else {
        1
    }
}

/// Admit a key secret as the root of its frontier. Gives the number of new events.
pub fn admit_key_secret(
    history: &mut HistoryStore,
    events: &mut EventStore,
    frontier: Frontier,
    key_secret: EventId,
) -> (n: usize)
    requires
        old(history).wf(),
        old(events).wf(),
    ensures
        final(history).wf(),
        final(events).wf(),
        vault(*final(history), *final(events)) == key_secret_admitted(
            vault(*old(history), *old(events)),
            key_secret_row(frontier, key_secret),
        ),
        n == key_secret_events(
            vault(*old(history), *old(events)),
            key_secret_row(frontier, key_secret),
        ),
{
    let row = make_key_secret_row(&frontier, &key_secret);
    let bytes = encode_key_secret(&frontier, &key_secret);
    let record = EventRecord {
        timestamp: 0,
        body_len: bytes.len(),
        canonical_bytes: bytes,
        dependencies: vec![frontier.removal_frontier_id],
        workspace_id: Some(frontier.workspace_id),
        scope: EventScope::Local,
    };
    let new_event = events.insert_event(&record, EventStatus::Applied);
    let _ = history.insert_root(row);
    if new_event {
        let _ = unblock_dependents(events, &row.local_key_secret_id);
        1
    } else {
        0
    }
}

/// What a drain of wraps counted.
#[derive(Debug, Clone, Copy, PartialEq, Eq)]
pub struct DeriveReport {
    pub scanned_key_wraps: usize,
    pub derived_key_secrets: usize,
    pub failed_key_wraps: usize,
    pub admitted_events: usize,
}

/// Where a drain of wraps stands: the vault, the wraps that are done with, and the counts.
#[verifier::ext_equal]
pub struct Unwrapping {
    pub vault: Vault,
    pub consumed: Set<Seq<u8>>,
    pub scanned: nat,
    pub derived: nat,
    pub failed: nat,
}

impl DeriveReport {
    /// A report holds the counts of a drain.
    pub open spec fn holds(&self, u: Unwrapping) -> bool {
        &&& self.scanned_key_wraps == u.scanned
        &&& self.derived_key_secrets == u.derived
        &&& self.failed_key_wraps == u.failed
        &&& self.admitted_events == u.derived
    }
}

/// The secret that a wrap turned out to hold, when it is the one that the wrap promises.
pub open spec fn unwrapped_secret(row: KeyWrapRow, opened: Map<Seq<u8>, Seq<u8>>) -> Option<
    EventId,
> {
    if !opened.contains_key(row.key_wrap_id@) {
        None
    } else {
        let plaintext = opened[row.key_wrap_id@];
        if plaintext.len() != 32 {
            None
        } else {
            let secret = id_with(plaintext);
            if key_secret_row(wrap_frontier(row), secret).local_key_secret_id
                != row.local_key_secret_id {
                None
            } else {
                Some(secret)
            }
        }
    }
}

/// A drain of wraps, one wrap further. `opened` holds what the wraps turned out to hold, by the
/// id of the wrap; a wrap that could not be opened is not in it.
pub open spec fn unwrap_step(
    k: KeyState,
    u: Unwrapping,
    key: Seq<u8>,
    opened: Map<Seq<u8>, Seq<u8>>,
) -> Unwrapping {
    match attempt_of(k, u.vault.history, key, k.pending[key]) {
        Attempt::Gone => Unwrapping { consumed: u.consumed.insert(key), ..u },
        Attempt::Mismatched => Unwrapping { failed: u.failed + 1, ..u },
        Attempt::Known => Unwrapping {
            consumed: u.consumed.insert(key),
            scanned: u.scanned + 1,
            ..u
        },
        Attempt::Unready => Unwrapping { scanned: u.scanned + 1, ..u },
        Attempt::Open { row, local } => match unwrapped_secret(row, opened) {
            None => Unwrapping { scanned: u.scanned + 1, failed: u.failed + 1, ..u },
            Some(secret) => {
                let root = key_secret_row(wrap_frontier(row), secret);
                Unwrapping {
                    vault: key_secret_admitted(u.vault, root),
                    consumed: u.consumed.insert(key),
                    scanned: u.scanned + 1,
                    derived: u.derived + key_secret_events(u.vault, root),
                    ..u
                }
            },
        },
    }
}

/// A drain of wraps after the first `n` that wait. Not more than `batch` wraps are looked into.
pub open spec fn unwrapped_upto(
    k: KeyState,
    v: Vault,
    keys: Seq<Seq<u8>>,
    batch: nat,
    opened: Map<Seq<u8>, Seq<u8>>,
    n: int,
) -> Unwrapping
    decreases n,
{
    if n <= 0 {
        Unwrapping { vault: v, consumed: Set::empty(), scanned: 0, derived: 0, failed: 0 }
    } else {
        let u = unwrapped_upto(k, v, keys, batch, opened, n - 1);
        if u.scanned >= batch {
            u
        } else {
            unwrap_step(k, u, keys[n - 1], opened)
        }
    }
}

proof fn lemma_unwrap_full(
    k: KeyState,
    v: Vault,
    keys: Seq<Seq<u8>>,
    batch: nat,
    opened: Map<Seq<u8>, Seq<u8>>,
    m: int,
    n: int,
)
    requires
        m <= n,
        unwrapped_upto(k, v, keys, batch, opened, m).scanned >= batch,
    ensures
        unwrapped_upto(k, v, keys, batch, opened, n) == unwrapped_upto(
            k,
            v,
            keys,
            batch,
            opened,
            m,
        ),
    decreases n - m,
{
    if m < n {
        lemma_unwrap_full(k, v, keys, batch, opened, m, n - 1);
    }
}

/// The rows without those under some keys.
pub open spec fn without_keys<V>(m: Map<Seq<u8>, V>, gone: Set<Seq<u8>>) -> Map<Seq<u8>, V> {
    m.remove_keys(gone)
}

fn remove_pending(keys: &mut KeyStore, gone: &Vec<Vec<u8>>)
    requires
        old(keys).wf(),
    ensures
        final(keys).wf(),
        final(keys)@ == (KeyState {
            pending: without_keys(old(keys)@.pending, key_views(gone@).to_set()),
            ..old(keys)@
        }),
{
    let mut i: usize = 0;
    let ghost all = key_views(gone@);
    proof {
        assert(all.take(0).to_set() =~= Set::empty());
        assert(keys@.pending =~= without_keys(keys@.pending, all.take(0).to_set()));
    }
    while i < gone.len()
        invariant
            keys.wf(),
            i <= gone@.len(),
            all == key_views(gone@),
            keys@ == (KeyState {
                pending: without_keys(old(keys)@.pending, all.take(i as int).to_set()),
                ..old(keys)@
            }),
        decreases gone.len() - i,
    {
        let _ = keys.pending.remove(gone[i].as_slice());
        proof {
            let (a, b) = (all.take(i as int), all.take(i + 1));
            assert(b =~= a.push(gone@[i as int]@));
            a.lemma_push_to_set_commute(gone@[i as int]@);
            assert(keys@.pending =~= without_keys(old(keys)@.pending, b.to_set()));
        }
        i = i + 1;
    }
    assert(all.take(i as int) =~= all);
}

/// Take in the secrets that wraps turned out to hold, and take the wraps that are done with
/// off the queue. A wrap that could not be opened, or that held something else than it
/// promised, stays queued and is counted as failed.
pub fn derive_key_secrets(
    keys: &mut KeyStore,
    history: &mut HistoryStore,
    events: &mut EventStore,
    batch_size: usize,
    opened: &Table<Vec<u8>>,
) -> (report: DeriveReport)
    requires
        old(keys).wf(),
        old(history).wf(),
        old(events).wf(),
        opened.wf(),
    ensures
        final(keys).wf(),
        final(history).wf(),
        final(events).wf(),
        ({
            let pending = pending_keys(old(keys)@, batch_size);
            let u = unwrapped_upto(
                old(keys)@,
                vault(*old(history), *old(events)),
                pending,
                batch_size as nat,
                opened@,
                pending.len() as int,
            );
            &&& report.holds(u)
            &&& vault(*final(history), *final(events)) == u.vault
            &&& final(keys)@ == (KeyState {
                pending: without_keys(old(keys)@.pending, u.consumed),
                ..old(keys)@
            })
        }),
{
    let pending = list_pending_unwraps(keys, batch_size);
    let ghost all = key_views(pending@);
    let ghost v = vault(*history, *events);
    let ghost k = keys@;
    let ghost mut u = unwrapped_upto(k, v, all, batch_size as nat, opened@, 0);
    let mut report = DeriveReport {
        scanned_key_wraps: 0,
        derived_key_secrets: 0,
        failed_key_wraps: 0,
        admitted_events: 0,
    };
    let mut consumed: Vec<Vec<u8>> = Vec::new();
    let mut i: usize = 0;
    assert(key_views(consumed@).to_set() =~= Set::empty());
    while i < pending.len() && report.scanned_key_wraps < batch_size
        invariant
            keys.wf(),
            history.wf(),
            events.wf(),
            opened.wf(),
            i <= pending@.len(),
            k == keys@,
            k == old(keys)@,
            v == vault(*old(history), *old(events)),
            all == key_views(pending@),
            forall|j: int|
                0 <= j < pending@.len() ==> keys@.pending.contains_key((#[trigger] pending@[j])@),
            u == unwrapped_upto(k, v, all, batch_size as nat, opened@, i as int),
            vault(*history, *events) == u.vault,
            key_views(consumed@).to_set() == u.consumed,
            report.holds(u),
            u.scanned <= i,
            u.derived <= i,
            u.failed <= i,
        decreases pending.len() - i,
    {
        assert(all[i as int] == pending@[i as int]@);
        let key_wrap_id = keys.pending.get(pending[i].as_slice()).unwrap().key_wrap_id;
        let ghost before = consumed@;
        let mut done = false;
        match classify(keys, history, &pending[i], &key_wrap_id) {
            Attempt::Gone => {
                done = true;
            },
            Attempt::Mismatched => {
                report.failed_key_wraps = report.failed_key_wraps + 1;
            },
            Attempt::Known => {
                report.scanned_key_wraps = report.scanned_key_wraps + 1;
                done = true;
            },
            Attempt::Unready => {
                report.scanned_key_wraps = report.scanned_key_wraps + 1;
            },
            Attempt::Open { row, local: _ } => {
                report.scanned_key_wraps = report.scanned_key_wraps + 1;
                match checked_secret(&row, opened) {
                    Some(secret) => {
                        let frontier = Frontier {
                            workspace_id: row.workspace_id,
                            removal_frontier_id: row.removal_frontier_id,
                        };
                        let n = admit_key_secret(history, events, frontier, secret);
                        report.derived_key_secrets = report.derived_key_secrets + n;
                        report.admitted_events = report.admitted_events + n;
                        done = true;
                    },
                    None => {
                        report.failed_key_wraps = report.failed_key_wraps + 1;
                    },
                }
            },
        }
        if done {
            let key = crate::bytes::copy_bytes(pending[i].as_slice());
            consumed.push(key);
            proof {
                assert(key_views(consumed@) =~= key_views(before).push(key@));
                key_views(before).lemma_push_to_set_commute(key@);
            }
        }
        proof {
            u = unwrapped_upto(k, v, all, batch_size as nat, opened@, i + 1);
        }
        i = i + 1;
    }
    proof {
        if i < pending@.len() {
            lemma_unwrap_full(k, v, all, batch_size as nat, opened@, i as int, all.len() as int);
        }
    }
    remove_pending(keys, &consumed);
    report
}

/// Look at what a wrap turned out to hold.
fn checked_secret(row: &KeyWrapRow, opened: &Table<Vec<u8>>) -> (r: Option<EventId>)
    requires
        opened.wf(),
    ensures
        r == unwrapped_secret(*row, opened@),
{
    let plaintext = match opened.get(row.key_wrap_id.as_slice()) {
        Some(plaintext) => plaintext,
        None => {
            return None;
        },
    };
    if plaintext.len() != 32 {
        return None;
    }
    let secret = id_at(plaintext.as_slice(), 0);
    proof {
        assert(plaintext@.subrange(0, 32) =~= plaintext@);
        lemma_id_with(secret);
    }
    let frontier = Frontier {
        workspace_id: row.workspace_id,
        removal_frontier_id: row.removal_frontier_id,
    };
    let root = make_key_secret_row(&frontier, &secret);
    if id_eq(&root.local_key_secret_id, &row.local_key_secret_id) {
        Some(secret)
    } else {
        None
    }
}

/// A wrap that is taken in gives its frontier a root, and is not looked into again.
pub proof fn law_unwrapped_frontier_is_known(
    k: KeyState,
    u: Unwrapping,
    key: Seq<u8>,
    opened: Map<Seq<u8>, Seq<u8>>,
)
    requires
        attempt_of(k, u.vault.history, key, k.pending[key]) matches Attempt::Open { row, .. }
            && unwrapped_secret(row, opened) is Some,
    ensures
        ({
            let after = unwrap_step(k, u, key, opened);
            &&& after.vault.history.has_root(wrap_frontier(k.wraps[key]))
            &&& after.consumed.contains(key)
            &&& attempt_of(k, after.vault.history, key, k.pending[key]) is Known
        }),
{
}

/// A drain is done with a wrap: it is gone, its frontier has a root, or it turned out to hold
/// what it promises.
pub open spec fn settles(
    k: KeyState,
    h: HistoryState,
    key: Seq<u8>,
    opened: Map<Seq<u8>, Seq<u8>>,
) -> bool {
    match attempt_of(k, h, key, k.pending[key]) {
        Attempt::Gone | Attempt::Known => true,
        Attempt::Open { row, .. } => unwrapped_secret(row, opened) is Some,
        _ => false,
    }
}

proof fn lemma_all_settle(
    k: KeyState,
    v: Vault,
    keys: Seq<Seq<u8>>,
    batch: nat,
    opened: Map<Seq<u8>, Seq<u8>>,
    n: int,
)
    requires
        0 <= n <= keys.len() <= batch,
        forall|i: int| 0 <= i < keys.len() ==> settles(k, v.history, #[trigger] keys[i], opened),
    ensures
        ({
            let u = unwrapped_upto(k, v, keys, batch, opened, n);
            &&& u.scanned <= n
            &&& forall|f: Frontier| #[trigger]
                v.history.has_root(f) ==> u.vault.history.has_root(f)
            &&& forall|i: int| 0 <= i < n ==> u.consumed.contains(#[trigger] keys[i])
        }),
    decreases n,
{
    if n > 0 {
        lemma_all_settle(k, v, keys, batch, opened, n - 1);
        let u = unwrapped_upto(k, v, keys, batch, opened, n - 1);
        let after = unwrapped_upto(k, v, keys, batch, opened, n);
        let key = keys[n - 1];
        assert(settles(k, v.history, key, opened));
        assert(settles(k, u.vault.history, key, opened));
        assert(after == unwrap_step(k, u, key, opened));
        assert(after.consumed.contains(key));
        assert forall|i: int| 0 <= i < n implies after.consumed.contains(#[trigger] keys[i]) by {
            if i < n - 1 {
                assert(u.consumed.contains(keys[i]));
            }
        }
    }
}

/// When a drain is done with every wrap that waits, a second drain finds nothing: it looks into
/// no wrap, takes no secret in, and changes nothing.
pub proof fn law_second_unwrap_finds_nothing(
    k: KeyState,
    v: Vault,
    batch_size: usize,
    opened: Map<Seq<u8>, Seq<u8>>,
    again: usize,
    opened_again: Map<Seq<u8>, Seq<u8>>,
)
    requires
        k.pending.dom().finite(),
        k.pending.len() <= batch_size,
        forall|key: Seq<u8>| #[trigger]
            k.pending.contains_key(key) ==> settles(k, v.history, key, opened),
    ensures
        ({
            let pending = pending_keys(k, batch_size);
            let u = unwrapped_upto(
                k,
                v,
                pending,
                batch_size as nat,
                opened,
                pending.len() as int,
            );
            let left = KeyState { pending: without_keys(k.pending, u.consumed), ..k };
            let pending_again = pending_keys(left, again);
            let second = unwrapped_upto(
                left,
                u.vault,
                pending_again,
                again as nat,
                opened_again,
                pending_again.len() as int,
            );
            &&& pending_again.len() == 0
            &&& second.scanned == 0
            &&& second.derived == 0
            &&& second.failed == 0
            &&& second.vault == u.vault
        }),
{
    let dom = k.pending.dom();
    let empty = Seq::<u8>::empty();
    lemma_all_begin_with_nothing(dom);
    lemma_listing_exists(dom);
    let all = listing(dom);
    lemma_ascending_distinct(all);
    assert(all.to_set() =~= dom) by {
        assert forall|key: Seq<u8>| all.to_set().contains(key) <==> #[trigger] dom.contains(
            key,
        ) by {
        }
    }
    all.unique_seq_to_set();
    let pending = pending_keys(k, batch_size);
    assert(pending == all);
    assert forall|i: int| 0 <= i < pending.len() implies settles(
        k,
        v.history,
        #[trigger] pending[i],
        opened,
    ) by {
        assert(all.contains(all[i]));
        assert(dom.contains(all[i]));
    }
    lemma_all_settle(k, v, pending, batch_size as nat, opened, pending.len() as int);
    let u = unwrapped_upto(k, v, pending, batch_size as nat, opened, pending.len() as int);
    let left = KeyState { pending: without_keys(k.pending, u.consumed), ..k };
    assert(left.pending.dom() =~= Set::empty()) by {
        assert forall|key: Seq<u8>| !#[trigger] left.pending.dom().contains(key) by {
            if k.pending.contains_key(key) {
                assert(dom.contains(key));
                assert(all.contains(key));
                let i = choose|i: int| 0 <= i < all.len() && all[i] == key;
                assert(u.consumed.contains(all[i]));
            }
        }
    }
    let none = Seq::<Seq<u8>>::empty();
    lemma_all_begin_with_nothing(left.pending.dom());
    assert(is_listing(none, left.pending.dom())) by {
        assert forall|key: Seq<u8>| #[trigger]
            left.pending.dom().contains(key) <==> none.contains(key) by {
        }
    }
    lemma_listing_is(none, left.pending.dom());
}

/// Every key begins with the empty prefix.
proof fn lemma_all_begin_with_nothing(keys: Set<Seq<u8>>)
    ensures
        with_prefix(keys, Seq::empty()) == keys,
{
    assert forall|key: Seq<u8>| has_prefix(key, Seq::empty()) by {
        assert(key.take(0) =~= Seq::empty());
    }
    assert(with_prefix(keys, Seq::empty()) =~= keys);
}

/// The private key of this device for a published recipient key is here.
pub open spec fn private_key_is_here(k: KeyState, row: KeyWrapRow) -> bool {
    let published = row.workspace_id@ + row.recipient_key_id@;
    &&& k.recipients.contains_key(published)
    &&& exists|l: Seq<u8>| #[trigger]
        k.locals.contains_key(l) && has_prefix(l, row.workspace_id@) && k.locals[l].recipient_key
            == k.recipients[published].recipient_key
}

/// What a wrap turned out to hold is the secret that it promises.
pub open spec fn holds_what_it_promises(row: KeyWrapRow, opened: Map<Seq<u8>, Seq<u8>>) -> bool {
    &&& opened.contains_key(row.key_wrap_id@)
    &&& exists|secret: EventId|
        secret@ == opened[row.key_wrap_id@] && row.local_key_secret_id
            == #[trigger] event_id_of(
            key_secret_bytes(
                Frontier {
                    workspace_id: row.workspace_id,
                    removal_frontier_id: row.removal_frontier_id,
                },
                secret,
            ),
        )
}

/// What an attempt at a wrap comes to, in terms of the stored rows. A wrap is opened exactly where
/// its frontier has no root yet, the recipient key is published, and its private key is here.
pub proof fn law_wrap_is_opened_where_its_key_is_here(k: KeyState, h: HistoryState, key: Seq<u8>)
    requires
        k.locals.dom().finite(),
        k.wraps.contains_key(key),
        k.pending.contains_key(key),
        k.pending[key] == k.wraps[key].key_wrap_id,
    ensures
        attempt_of(k, h, key, k.pending[key]) matches Attempt::Open { row, local } ==> row
            == k.wraps[key] && local.recipient_key == k.recipients[row.workspace_id@
            + row.recipient_key_id@].recipient_key,
        ({
            let row = k.wraps[key];
            attempt_of(k, h, key, k.pending[key]) is Open <==> {
                &&& !h.roots.contains_key(row.workspace_id@ + row.removal_frontier_id@)
                &&& private_key_is_here(k, row)
            }
        }),
{
    let row = k.wraps[key];
    let published = row.workspace_id@ + row.recipient_key_id@;
    let locals = values_under(k.locals, row.workspace_id@);
    lemma_values_under(k.locals, row.workspace_id@);
    if k.recipients.contains_key(published) {
        let wanted = k.recipients[published].recipient_key;
        lemma_local_key(locals, wanted);
        if exists|l: Seq<u8>| #[trigger]
            k.locals.contains_key(l) && has_prefix(l, row.workspace_id@)
                && k.locals[l].recipient_key == wanted {
            let l = choose|l: Seq<u8>| #[trigger]
                k.locals.contains_key(l) && has_prefix(l, row.workspace_id@)
                    && k.locals[l].recipient_key == wanted;
            assert(locals.contains(k.locals[l]));
            let i = choose|i: int| 0 <= i < locals.len() && locals[i] == k.locals[l];
            assert(locals[i].recipient_key == wanted);
        }
        if local_key_for(locals, wanted) is Some {
            let found = local_key_for(locals, wanted)->Some_0;
            assert(locals.contains(found));
            let l = choose|l: Seq<u8>| #[trigger]
                k.locals.contains_key(l) && has_prefix(l, row.workspace_id@) && k.locals[l]
                    == found;
            assert(k.locals[l].recipient_key == wanted);
        }
    }
}

/// The key that is found among some local keys is one of them with the wanted public half, and one
/// is found where there is one.
pub proof fn lemma_local_key(locals: Seq<LocalRecipientKeyRow>, wanted: EventId)
    ensures
        local_key_for(locals, wanted) is Some <==> exists|i: int|
            0 <= i < locals.len() && (#[trigger] locals[i]).recipient_key == wanted,
        local_key_for(locals, wanted) matches Some(row) ==> locals.contains(row)
            && row.recipient_key == wanted,
    decreases locals.len(),
{
    if locals.len() > 0 {
        let rest = locals.skip(1);
        lemma_local_key(rest, wanted);
        if locals[0].recipient_key != wanted {
            if exists|i: int| 0 <= i < locals.len() && (#[trigger] locals[i]).recipient_key
                == wanted {
                let i = choose|i: int|
                    0 <= i < locals.len() && (#[trigger] locals[i]).recipient_key == wanted;
                assert(rest[i - 1] == locals[i]);
            }
            if local_key_for(rest, wanted) is Some {
                let found = local_key_for(rest, wanted)->Some_0;
                let j = choose|j: int| 0 <= j < rest.len() && rest[j] == found;
                assert(locals[j + 1] == found);
            }
        }
    }
}

/// A wrap that waits can be taken in: it is stored under its key, the private key is here, and it
/// holds what it promises.
pub open spec fn can_be_taken_in(
    k: KeyState,
    key: Seq<u8>,
    opened: Map<Seq<u8>, Seq<u8>>,
) -> bool {
    &&& k.wraps.contains_key(key)
    &&& k.pending.contains_key(key)
    &&& k.pending[key] == k.wraps[key].key_wrap_id
    &&& private_key_is_here(k, k.wraps[key])
    &&& holds_what_it_promises(k.wraps[key], opened)
}

proof fn lemma_wrap_taken_in(
    k: KeyState,
    u: Unwrapping,
    key: Seq<u8>,
    opened: Map<Seq<u8>, Seq<u8>>,
)
    requires
        k.locals.dom().finite(),
        can_be_taken_in(k, key, opened),
    ensures
        unwrap_step(k, u, key, opened).consumed.contains(key),
        unwrap_step(k, u, key, opened).vault.history.has_root(wrap_frontier(k.wraps[key])),
{
    law_wrap_is_opened_where_its_key_is_here(k, u.vault.history, key);
    let row = k.wraps[key];
    let secret = choose|secret: EventId|
        secret@ == opened[row.key_wrap_id@] && row.local_key_secret_id == #[trigger] event_id_of(
            key_secret_bytes(wrap_frontier(row), secret),
        );
    lemma_id_with(secret);
    assert(unwrapped_secret(row, opened) == Some(secret));
}

proof fn lemma_wraps_taken_in(
    k: KeyState,
    v: Vault,
    keys: Seq<Seq<u8>>,
    batch: nat,
    opened: Map<Seq<u8>, Seq<u8>>,
    n: int,
)
    requires
        0 <= n <= keys.len() <= batch,
        k.locals.dom().finite(),
    ensures
        ({
            let u = unwrapped_upto(k, v, keys, batch, opened, n);
            &&& u.scanned <= n
            &&& forall|x: Seq<u8>| #[trigger]
                v.history.roots.contains_key(x) ==> u.vault.history.roots.contains_key(x)
                    && u.vault.history.roots[x] == v.history.roots[x]
            &&& forall|i: int|
                0 <= i < n && can_be_taken_in(k, #[trigger] keys[i], opened) ==> u.consumed.contains(
                    keys[i],
                ) && u.vault.history.has_root(wrap_frontier(k.wraps[keys[i]]))
            &&& forall|f: Frontier| #[trigger]
                u.vault.history.has_root(f) && !v.history.has_root(f) ==> exists|i: int|
                    0 <= i < n && holds_root(
                        k,
                        opened,
                        #[trigger] keys[i],
                        f,
                        u.vault.history.root(f),
                    )
            &&& forall|key: Seq<u8>| #[trigger]
                u.consumed.contains(key) && k.wraps.contains_key(key) ==> k.pending[key]
                    == k.wraps[key].key_wrap_id && u.vault.history.has_root(
                    wrap_frontier(k.wraps[key]),
                )
        }),
    decreases n,
{
    if n > 0 {
        lemma_wraps_taken_in(k, v, keys, batch, opened, n - 1);
        let u = unwrapped_upto(k, v, keys, batch, opened, n - 1);
        let after = unwrapped_upto(k, v, keys, batch, opened, n);
        let key = keys[n - 1];
        assert(after == unwrap_step(k, u, key, opened));
        assert forall|x: Seq<u8>| #[trigger] u.vault.history.roots.contains_key(x) implies {
            &&& after.vault.history.roots.contains_key(x)
            &&& after.vault.history.roots[x] == u.vault.history.roots[x]
        } by {}
        assert forall|i: int|
            0 <= i < n && can_be_taken_in(k, #[trigger] keys[i], opened) implies {
            &&& after.consumed.contains(keys[i])
            &&& after.vault.history.has_root(wrap_frontier(k.wraps[keys[i]]))
        } by {
            if i == n - 1 {
                lemma_wrap_taken_in(k, u, key, opened);
            } else {
                assert(u.vault.history.has_root(wrap_frontier(k.wraps[keys[i]])));
            }
        }
        assert forall|f: Frontier| #[trigger]
            after.vault.history.has_root(f) && !v.history.has_root(f) implies exists|i: int|
            0 <= i < n && holds_root(
                k,
                opened,
                #[trigger] keys[i],
                f,
                after.vault.history.root(f),
            ) by {
            if u.vault.history.has_root(f) {
                let i = choose|i: int|
                    0 <= i < n - 1 && holds_root(
                        k,
                        opened,
                        #[trigger] keys[i],
                        f,
                        u.vault.history.root(f),
                    );
                assert(holds_root(k, opened, keys[i], f, after.vault.history.root(f)));
            } else {
                let row = k.wraps[key];
                lemma_frontier_key_injective(wrap_frontier(row), f);
                let secret = unwrapped_secret(row, opened)->Some_0;
                lemma_id_of(opened[row.key_wrap_id@], secret);
                assert(holds_root(k, opened, keys[n - 1], f, after.vault.history.root(f)));
            }
        }
        assert forall|x: Seq<u8>| #[trigger]
            after.consumed.contains(x) && k.wraps.contains_key(x) implies k.pending[x]
            == k.wraps[x].key_wrap_id && after.vault.history.has_root(
            wrap_frontier(k.wraps[x]),
        ) by {
            if u.consumed.contains(x) {
                assert(u.vault.history.has_root(wrap_frontier(k.wraps[x])));
            }
        }
    }
}

/// A root is the secret that a wrap for its frontier turned out to hold, and the one that the wrap
/// promised.
pub open spec fn holds_root(
    k: KeyState,
    opened: Map<Seq<u8>, Seq<u8>>,
    key: Seq<u8>,
    f: Frontier,
    root: KeySecretRow,
) -> bool {
    let row = k.wraps[key];
    &&& k.wraps.contains_key(key)
    &&& row.workspace_id == f.workspace_id
    &&& row.removal_frontier_id == f.removal_frontier_id
    &&& opened.contains_key(row.key_wrap_id@)
    &&& opened[row.key_wrap_id@] == root.key_secret@
    &&& root.frontier == f
    &&& root.local_key_secret_id == row.local_key_secret_id
}

/// A drain takes in every wrap that can be, and nothing else becomes a root: the frontier of each
/// such wrap has a root afterwards, and the wrap does not wait any more. Every new root is what a
/// wrap for that frontier held and promised; roots that were there stay as they are.
pub proof fn law_every_wrap_is_taken_in(
    k: KeyState,
    v: Vault,
    keys: Seq<Seq<u8>>,
    batch: nat,
    opened: Map<Seq<u8>, Seq<u8>>,
)
    requires
        keys.len() <= batch,
        k.locals.dom().finite(),
    ensures
        ({
            let u = unwrapped_upto(k, v, keys, batch, opened, keys.len() as int);
            &&& forall|i: int|
                0 <= i < keys.len() && can_be_taken_in(k, #[trigger] keys[i], opened)
                    ==> u.consumed.contains(keys[i]) && u.vault.history.roots.contains_key(
                    k.wraps[keys[i]].workspace_id@ + k.wraps[keys[i]].removal_frontier_id@,
                )
            &&& forall|x: Seq<u8>| #[trigger]
                v.history.roots.contains_key(x) ==> u.vault.history.roots.contains_key(x)
                    && u.vault.history.roots[x] == v.history.roots[x]
            &&& forall|f: Frontier| #[trigger]
                u.vault.history.has_root(f) && !v.history.has_root(f) ==> exists|i: int|
                    0 <= i < keys.len() && holds_root(
                        k,
                        opened,
                        #[trigger] keys[i],
                        f,
                        u.vault.history.root(f),
                    )
            &&& forall|key: Seq<u8>| #[trigger]
                u.consumed.contains(key) && k.wraps.contains_key(key) ==> k.pending[key]
                    == k.wraps[key].key_wrap_id && u.vault.history.roots.contains_key(
                    k.wraps[key].workspace_id@ + k.wraps[key].removal_frontier_id@,
                )
        }),
{
    lemma_wraps_taken_in(k, v, keys, batch, opened, keys.len() as int);
    let u = unwrapped_upto(k, v, keys, batch, opened, keys.len() as int);
    assert forall|i: int|
        0 <= i < keys.len() && can_be_taken_in(
            k,
            #[trigger] keys[i],
            opened,
        ) implies u.consumed.contains(keys[i]) && u.vault.history.roots.contains_key(
        k.wraps[keys[i]].workspace_id@ + k.wraps[keys[i]].removal_frontier_id@,
    ) by {
        assert(u.vault.history.has_root(wrap_frontier(k.wraps[keys[i]])));
    }
    assert forall|key: Seq<u8>| #[trigger]
        u.consumed.contains(key) && k.wraps.contains_key(key) implies k.pending[key]
        == k.wraps[key].key_wrap_id && u.vault.history.roots.contains_key(
        k.wraps[key].workspace_id@ + k.wraps[key].removal_frontier_id@,
    ) by {
        assert(u.vault.history.has_root(wrap_frontier(k.wraps[key])));
    }
}

/// The wraps that are handed out to be opened are all those that the private keys at hand can
/// open, each with the private half of the key that it was made for, and no others.
pub proof fn law_all_openable_wraps_are_handed_out(
    k: KeyState,
    h: HistoryState,
    keys: Seq<Seq<u8>>,
    n: int,
)
    requires
        0 <= n <= keys.len(),
        k.locals.dom().finite(),
        forall|i: int| 0 <= i < keys.len() ==> k.pending.contains_key(#[trigger] keys[i]),
    ensures
        forall|i: int|
            0 <= i < n && k.wraps.contains_key(#[trigger] keys[i]) && k.pending[keys[i]]
                == k.wraps[keys[i]].key_wrap_id && private_key_is_here(k, k.wraps[keys[i]])
                && !h.roots.contains_key(
                k.wraps[keys[i]].workspace_id@ + k.wraps[keys[i]].removal_frontier_id@,
            ) ==> exists|j: int|
                0 <= j < openable(k, h, keys, n).len() && (#[trigger] openable(k, h, keys, n)[j]).0
                    == k.wraps[keys[i]],
        forall|j: int|
            0 <= j < openable(k, h, keys, n).len() ==> {
                let (row, local) = #[trigger] openable(k, h, keys, n)[j];
                &&& exists|i: int|
                    0 <= i < n && k.wraps.contains_key(#[trigger] keys[i]) && k.wraps[keys[i]]
                        == row
                &&& local.recipient_key == k.recipients[row.workspace_id@
                    + row.recipient_key_id@].recipient_key
                &&& !h.roots.contains_key(row.workspace_id@ + row.removal_frontier_id@)
            },
    decreases n,
{
    if n > 0 {
        law_all_openable_wraps_are_handed_out(k, h, keys, n - 1);
        let before = openable(k, h, keys, n - 1);
        let after = openable(k, h, keys, n);
        let key = keys[n - 1];
        if k.wraps.contains_key(key) && k.pending[key] == k.wraps[key].key_wrap_id {
            law_wrap_is_opened_where_its_key_is_here(k, h, key);
        }
        assert forall|i: int|
            0 <= i < n && k.wraps.contains_key(#[trigger] keys[i]) && k.pending[keys[i]]
                == k.wraps[keys[i]].key_wrap_id && private_key_is_here(k, k.wraps[keys[i]])
                && !h.roots.contains_key(
                k.wraps[keys[i]].workspace_id@ + k.wraps[keys[i]].removal_frontier_id@,
            ) implies exists|j: int|
            0 <= j < after.len() && (#[trigger] after[j]).0 == k.wraps[keys[i]] by {
            if i == n - 1 {
                assert(after[after.len() - 1].0 == k.wraps[keys[i]]);
            } else {
                let j = choose|j: int|
                    0 <= j < before.len() && (#[trigger] before[j]).0 == k.wraps[keys[i]];
                assert(after[j] == before[j]);
            }
        }
        assert forall|j: int| 0 <= j < after.len() implies {
            let (row, local) = #[trigger] after[j];
            &&& exists|i: int|
                0 <= i < n && k.wraps.contains_key(#[trigger] keys[i]) && k.wraps[keys[i]] == row
            &&& local.recipient_key == k.recipients[row.workspace_id@
                + row.recipient_key_id@].recipient_key
            &&& !h.roots.contains_key(row.workspace_id@ + row.removal_frontier_id@)
        } by {
            if j < before.len() {
                assert(after[j] == before[j]);
            } else {
                assert(k.wraps.contains_key(keys[n - 1]));
            }
        }
    }
}

/// The wraps that one drain looks at are the first ones that wait, all of them where the batch is
/// large enough.
pub proof fn law_all_waiting_wraps_are_looked_at(k: KeyState, batch_size: usize)
    requires
        countable(k.pending.dom()),
        k.pending.dom().len() <= batch_size,
        batch_size > 0,
    ensures
        forall|key: Seq<u8>| #[trigger]
            k.pending.contains_key(key) ==> pending_keys(k, batch_size).contains(key),
        pending_keys(k, batch_size).len() <= batch_size,
{
    lemma_prefix_listed(k.pending.dom(), Seq::empty());
    lemma_all_begin_with_nothing(k.pending.dom());
    let all = listing(k.pending.dom());
    assert forall|key: Seq<u8>| #[trigger]
        k.pending.contains_key(key) implies pending_keys(k, batch_size).contains(key) by {
        assert(k.pending.dom().contains(key));
        assert(all.contains(key));
    }
}

} // verus!
