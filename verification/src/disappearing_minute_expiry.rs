//! Expiring messages when the clock has passed their minute.
//!
//! A message expires in a workspace with a time to live, once the minute that it was authored
//! to expire at lies behind the clock. It loses its rows and its bytes, a tombstone takes its
//! place, its leaf is retired, and so are the leaves of the reactions to it. A purge of deleted
//! content follows at once and takes what hung on the message. Where that stored an event, the
//! events that are ready then are applied. Nothing happens while the clock is not set.
use vstd::prelude::*;
use crate::bytes::{has_prefix, id_eq, lemma_id_ext, EventId};
use crate::content::{
    message_key, message_key_bytes, tombstone_written, ContentState, ContentStore, MessageHead,
    MessageTombstoneRow, ReactionHead, SealedMessageView, SealedReactionView,
};
use crate::content_decrypt::{
    first_keys, lemma_first_keys, list_sealed_messages, list_sealed_reactions, sealed_message_views,
    sealed_messages_listed, sealed_reaction_views, sealed_reactions_listed,
};
use crate::content_events::{
    message_coordinate, message_event_id_in_minute, reaction_coordinate,
    reaction_event_id_in_minute,
};
use crate::content_purge::{
    first_shared, leaf_is_gone, lemma_gone_stays_gone, one_if, purge_admits, purge_done,
    purge_error, purge_scanned, PurgeTally,
};
use crate::events::{
    self, ready_applied, saturated, ApplyReadyReport, DrainUntilIdle, EventRegistry,
    DEFAULT_READY_BATCH,
};
use crate::history::{leaf_coord, Coord, Frontier, TIME_TREE_ROOT_WIDTH};
use crate::history_chop_laws::law_retirement_is_deterministic;
use crate::history_laws::{
    law_leaf_stays_until_it_is_retired, law_retired_leaf_is_not_derivable,
    law_retirement_uncovers_for_good, lemma_kept_leaf_is_covered,
};
use crate::history_store::{valid_history, HistoryStore};
use crate::history_tree::{
    covered, retire_deleted_event_leaf, retired, vault, Vault, UNIX_MINUTE_MS,
};
use crate::keys::lemma_values_under;
use crate::purging::{purge_event_storage_in_tx, purged_store};
use crate::settings::{all_workspaces, list_workspaces, SettingsState, SettingsStore, WorkspaceRow};
use crate::store::{Store, StoreState};
use crate::table::{countable, lemma_prefix_listed};
use crate::text::prefixed;

verus! {

/// What a run counted.
#[derive(Debug, Clone, Copy, PartialEq, Eq)]
pub struct ExpiryReport {
    /// Leaves of messages and reactions that were there to retire.
    pub retired_message_leaves: usize,
    pub purged_event_bytes: usize,
    pub deleted_message_rows: usize,
    /// Rows that the purge afterwards deleted.
    pub cascaded_reaction_rows: usize,
    pub cascaded_file_rows: usize,
    pub cascaded_file_slice_rows: usize,
}

/// What a run counted, without machine limits.
pub struct ExpiryTally {
    pub leaves: nat,
    pub purged: nat,
    pub messages: nat,
    pub reactions: nat,
    pub files: nat,
    pub slices: nat,
    /// Some event was stored: a node that a retired leaf left beside it.
    pub stored: bool,
}

/// The counts before anything expires.
pub open spec fn nothing_expired() -> ExpiryTally {
    ExpiryTally {
        leaves: 0,
        purged: 0,
        messages: 0,
        reactions: 0,
        files: 0,
        slices: 0,
        stored: false,
    }
}

impl ExpiryReport {
    /// A report holds some counts.
    pub open spec fn holds(&self, t: ExpiryTally) -> bool {
        &&& self.retired_message_leaves == saturated(t.leaves as int)
        &&& self.purged_event_bytes == saturated(t.purged as int)
        &&& self.deleted_message_rows == saturated(t.messages as int)
        &&& self.cascaded_reaction_rows == saturated(t.reactions as int)
        &&& self.cascaded_file_rows == saturated(t.files as int)
        &&& self.cascaded_file_slice_rows == saturated(t.slices as int)
    }
}

// ---------------------------------------------------------------------------
// Which messages expire
// ---------------------------------------------------------------------------

/// A sealed message has expired by a minute. One with the last minute never does.
pub open spec fn has_expired(expires_at_minute: u64, now_minute: u64) -> bool {
    expires_at_minute != u64::MAX && expires_at_minute < now_minute
}

/// The expired messages among the first `n` sealed ones, for one workspace.
pub open spec fn expired_among(
    sealed: Seq<SealedMessageView>,
    workspace_id: EventId,
    now_minute: u64,
    n: int,
) -> Seq<MessageHead>
    decreases n,
{
    if n <= 0 {
        Seq::empty()
    } else {
        let before = expired_among(sealed, workspace_id, now_minute, n - 1);
        let row = sealed[n - 1];
        if row.head.workspace_id == workspace_id && has_expired(
            row.expires_at_minute,
            now_minute,
        ) {
            before.push(row.head)
        } else {
            before
        }
    }
}

/// The expired messages of the first `n` workspaces. A workspace without a time to live keeps
/// all of its messages.
pub open spec fn expired_in(
    sealed: Seq<SealedMessageView>,
    workspaces: Seq<WorkspaceRow>,
    now_minute: u64,
    n: int,
) -> Seq<MessageHead>
    decreases n,
{
    if n <= 0 {
        Seq::empty()
    } else {
        let before = expired_in(sealed, workspaces, now_minute, n - 1);
        let row = workspaces[n - 1];
        if row.disappearing_ttl_minutes == 0 {
            before
        } else {
            before + expired_among(sealed, row.workspace_id, now_minute, sealed.len() as int)
        }
    }
}

/// All expired messages: workspace by workspace, in the order of their keys.
pub open spec fn expired_messages(c: ContentState, s: SettingsState, now_minute: u64) -> Seq<
    MessageHead,
> {
    let workspaces = all_workspaces(s);
    expired_in(
        sealed_messages_listed(c, usize::MAX),
        workspaces,
        now_minute,
        workspaces.len() as int,
    )
}

/// The messages that a run expires: the first `limit` expired ones.
pub open spec fn messages_to_expire(
    c: ContentState,
    s: SettingsState,
    now_minute: u64,
    limit: usize,
) -> Seq<MessageHead> {
    let all = expired_messages(c, s, now_minute);
    if all.len() <= limit {
        all
    } else {
        all.take(limit as int)
    }
}

fn list_messages_to_expire(
    content: &ContentStore,
    settings: &SettingsStore,
    now_minute: u64,
    limit: usize,
) -> (r: Vec<MessageHead>)
    requires
        content.wf(),
        settings.wf(),
    ensures
        r@ == messages_to_expire(content@, settings@, now_minute, limit),
{
    let sealed = list_sealed_messages(content, usize::MAX);
    let ghost all = sealed_message_views(sealed@);
    let workspaces = list_workspaces(settings);
    let mut out: Vec<MessageHead> = Vec::new();
    let mut i: usize = 0;
    while i < workspaces.len()
        invariant
            i <= workspaces@.len(),
            all == sealed_message_views(sealed@),
            out@ == expired_in(all, workspaces@, now_minute, i as int),
        decreases workspaces.len() - i,
    {
        let row = workspaces[i];
        if row.disappearing_ttl_minutes != 0 {
            let ghost before = out@;
            let mut j: usize = 0;
            assert(out@ =~= before + expired_among(all, row.workspace_id, now_minute, 0));
            while j < sealed.len()
                invariant
                    j <= sealed@.len(),
                    all == sealed_message_views(sealed@),
                    out@ == before + expired_among(all, row.workspace_id, now_minute, j as int),
                decreases sealed.len() - j,
            {
                let message = &sealed[j];
                assert(all[j as int] == message@);
                if id_eq(&message.head.workspace_id, &row.workspace_id)
                    && message.expires_at_minute != u64::MAX && message.expires_at_minute
                    < now_minute {
                    out.push(message.head);
                    assert(out@ =~= before + expired_among(
                        all,
                        row.workspace_id,
                        now_minute,
                        j + 1,
                    ));
                }
                j = j + 1;
            }
            assert(all.len() == sealed@.len());
        }
        i = i + 1;
    }
    if out.len() > limit {
        out.truncate(limit);
    }
    out
}

// ---------------------------------------------------------------------------
// Expiring one message
// ---------------------------------------------------------------------------

/// Where a run stands.
pub struct Expiring {
    pub content: ContentState,
    pub vault: Vault,
    pub store: StoreState,
    pub tally: ExpiryTally,
}

/// The events of the store are those of the vault.
pub open spec fn expiring_at(
    e: Expiring,
    content: ContentStore,
    history: HistoryStore,
    store: Store,
    report: ExpiryReport,
) -> bool {
    &&& content@ == e.content
    &&& vault(history, store.events) == e.vault
    &&& store@ == e.store
    &&& report.holds(e.tally)
}

/// A run after one leaf is retired.
pub open spec fn leaf_retired(
    e: Expiring,
    frontier: Frontier,
    created_at_ms: u64,
    event_id_in_minute: EventId,
) -> Expiring {
    let (v, report) = retired(
        e.vault,
        frontier,
        (created_at_ms as int / 60_000) as u64,
        event_id_in_minute,
    );
    Expiring {
        vault: v,
        store: StoreState { events: v.events, ..e.store },
        tally: ExpiryTally {
            leaves: e.tally.leaves + one_if(report.leaf_id is Some),
            purged: e.tally.purged + report.purged_event_bytes as nat,
            stored: e.tally.stored || report.admitted_events > 0,
            ..e.tally
        },
        ..e
    }
}

/// Retire a leaf. Tells whether an event was stored.
fn retire_leaf(
    history: &mut HistoryStore,
    store: &mut Store,
    report: &mut ExpiryReport,
    frontier: Frontier,
    created_at_ms: u64,
    event_id_in_minute: EventId,
    Ghost(e): Ghost<Expiring>,
) -> (stored: bool)
    requires
        old(history).wf(),
        old(store).wf(),
        vault(*old(history), old(store).events) == e.vault,
        old(store)@ == e.store,
        old(report).holds(e.tally),
    ensures
        final(history).wf(),
        final(store).wf(),
        ({
            let after = leaf_retired(e, frontier, created_at_ms, event_id_in_minute);
            &&& vault(*final(history), final(store).events) == after.vault
            &&& final(store)@ == after.store
            &&& final(report).holds(after.tally)
            &&& after.tally.stored == (e.tally.stored || stored)
        }),
{
    let retired_report = retire_deleted_event_leaf(
        history,
        &mut store.events,
        frontier,
        created_at_ms,
        event_id_in_minute,
    );
    if retired_report.leaf_id.is_some() {
        report.retired_message_leaves = report.retired_message_leaves.saturating_add(1);
    }
    report.purged_event_bytes = report.purged_event_bytes.saturating_add(
        retired_report.purged_event_bytes,
    );
    retired_report.admitted_events > 0
}

/// A run after the rows and the bytes of a message are gone: a tombstone with the minute of its
/// authoring takes their place.
pub open spec fn message_removed(e: Expiring, m: MessageHead) -> Expiring {
    let key = message_key_bytes(m.workspace_id, m.message_id);
    let s = purged_store(e.store, m.message_id@);
    Expiring {
        content: ContentState {
            messages: e.content.messages.remove(key),
            sealed_messages: e.content.sealed_messages.remove(key),
            message_tombstones: tombstone_written(
                e.content.message_tombstones,
                MessageTombstoneRow {
                    workspace_id: m.workspace_id,
                    message_id: m.message_id,
                    author_user_id: m.author_user_id,
                    authored_minute: (m.created_at_ms as int / 60_000) as u64,
                },
            ),
            ..e.content
        },
        vault: Vault { events: s.events, ..e.vault },
        store: s,
        tally: ExpiryTally {
            messages: e.tally.messages + one_if(e.content.messages.contains_key(key)),
            ..e.tally
        },
    }
}

/// A run after one message is expired.
pub open spec fn message_expired(e: Expiring, m: MessageHead) -> Expiring {
    leaf_retired(
        message_removed(e, m),
        Frontier { workspace_id: m.workspace_id, removal_frontier_id: m.removal_frontier_id },
        m.created_at_ms,
        message_coordinate(
            m.workspace_id,
            m.author_user_id,
            m.removal_frontier_id,
            m.created_at_ms,
        ),
    )
}

fn process_job(
    content: &mut ContentStore,
    history: &mut HistoryStore,
    store: &mut Store,
    report: &mut ExpiryReport,
    m: &MessageHead,
    Ghost(e): Ghost<Expiring>,
) -> (stored: bool)
    requires
        old(content).wf(),
        old(history).wf(),
        old(store).wf(),
        expiring_at(e, *old(content), *old(history), *old(store), *old(report)),
    ensures
        final(content).wf(),
        final(history).wf(),
        final(store).wf(),
        expiring_at(
            message_expired(e, *m),
            *final(content),
            *final(history),
            *final(store),
            *final(report),
        ),
        message_expired(e, *m).tally.stored == (e.tally.stored || stored),
{
    let key = message_key(&m.workspace_id, &m.message_id);
    if content.messages.remove(key.as_slice()).is_some() {
        report.deleted_message_rows = report.deleted_message_rows.saturating_add(1);
    }
    let _ = content.sealed_messages.remove(key.as_slice());
    let _ = content.insert_message_tombstone(
        MessageTombstoneRow {
            workspace_id: m.workspace_id,
            message_id: m.message_id,
            author_user_id: m.author_user_id,
            authored_minute: m.created_at_ms / UNIX_MINUTE_MS,
        },
    );
    let _ = purge_event_storage_in_tx(store, &m.message_id);
    retire_leaf(
        history,
        store,
        report,
        Frontier { workspace_id: m.workspace_id, removal_frontier_id: m.removal_frontier_id },
        m.created_at_ms,
        message_event_id_in_minute(
            &m.workspace_id,
            &m.author_user_id,
            &m.removal_frontier_id,
            m.created_at_ms,
        ),
        Ghost(message_removed(e, *m)),
    )
}

/// A run after the first `n` messages are expired.
pub open spec fn expired_upto(e: Expiring, jobs: Seq<MessageHead>, n: int) -> Expiring
    decreases n,
{
    if n <= 0 {
        e
    } else {
        message_expired(expired_upto(e, jobs, n - 1), jobs[n - 1])
    }
}

// ---------------------------------------------------------------------------
// Reactions to expired messages
// ---------------------------------------------------------------------------

/// A reaction belongs to one of the expired messages.
pub open spec fn reacts_to_expired(jobs: Seq<MessageHead>, r: ReactionHead) -> bool {
    exists|i: int|
        #![trigger jobs[i]]
        0 <= i < jobs.len() && jobs[i].workspace_id == r.workspace_id && jobs[i].message_id
            == r.target_message_id
}

fn find_expired(jobs: &Vec<MessageHead>, r: &ReactionHead) -> (found: bool)
    ensures
        found == reacts_to_expired(jobs@, *r),
{
    let mut i: usize = 0;
    while i < jobs.len()
        invariant
            i <= jobs@.len(),
            forall|j: int|
                #![trigger jobs@[j]]
                0 <= j < i ==> !(jobs@[j].workspace_id == r.workspace_id && jobs@[j].message_id
                    == r.target_message_id),
        decreases jobs.len() - i,
    {
        if id_eq(&jobs[i].workspace_id, &r.workspace_id) && id_eq(
            &jobs[i].message_id,
            &r.target_message_id,
        ) {
            return true;
        }
        i = i + 1;
    }
    false
}

/// A run after the leaves of the reactions among the first `n` sealed ones are retired, where
/// their message expired.
pub open spec fn reactions_retired(
    e: Expiring,
    jobs: Seq<MessageHead>,
    sealed: Seq<SealedReactionView>,
    n: int,
) -> Expiring
    decreases n,
{
    if n <= 0 {
        e
    } else {
        let before = reactions_retired(e, jobs, sealed, n - 1);
        let r = sealed[n - 1].head;
        if reacts_to_expired(jobs, r) {
            leaf_retired(
                before,
                Frontier {
                    workspace_id: r.workspace_id,
                    removal_frontier_id: r.removal_frontier_id,
                },
                r.created_at_ms,
                reaction_coordinate(
                    r.workspace_id,
                    r.author_user_id,
                    r.target_message_id,
                    r.removal_frontier_id,
                    r.created_at_ms,
                ),
            )
        } else {
            before
        }
    }
}

fn retire_reaction_leaves_for_expired_messages(
    content: &ContentStore,
    history: &mut HistoryStore,
    store: &mut Store,
    jobs: &Vec<MessageHead>,
    report: &mut ExpiryReport,
    Ghost(e): Ghost<Expiring>,
) -> (stored: bool)
    requires
        content.wf(),
        old(history).wf(),
        old(store).wf(),
        expiring_at(e, *content, *old(history), *old(store), *old(report)),
    ensures
        final(history).wf(),
        final(store).wf(),
        ({
            let sealed = sealed_reactions_listed(content@, usize::MAX);
            let after = reactions_retired(e, jobs@, sealed, sealed.len() as int);
            &&& expiring_at(after, *content, *final(history), *final(store), *final(report))
            &&& after.tally.stored == (e.tally.stored || stored)
        }),
{
    let reactions = list_sealed_reactions(content, usize::MAX);
    let ghost sealed = sealed_reaction_views(reactions@);
    let ghost mut now = e;
    let mut stored = false;
    let mut i: usize = 0;
    while i < reactions.len()
        invariant
            history.wf(),
            store.wf(),
            i <= reactions@.len(),
            sealed == sealed_reaction_views(reactions@),
            now == reactions_retired(e, jobs@, sealed, i as int),
            expiring_at(now, *content, *history, *store, *report),
            now.tally.stored == (e.tally.stored || stored),
        decreases reactions.len() - i,
    {
        assert(sealed[i as int] == reactions@[i as int]@);
        let r = reactions[i].head;
        if find_expired(jobs, &r) {
            let event_id_in_minute = reaction_event_id_in_minute(
                &r.workspace_id,
                &r.author_user_id,
                &r.target_message_id,
                &r.removal_frontier_id,
                r.created_at_ms,
            );
            let admitted = retire_leaf(
                history,
                store,
                report,
                Frontier {
                    workspace_id: r.workspace_id,
                    removal_frontier_id: r.removal_frontier_id,
                },
                r.created_at_ms,
                event_id_in_minute,
                Ghost(now),
            );
            stored = stored || admitted;
        }
        proof {
            now = reactions_retired(e, jobs@, sealed, i + 1);
        }
        i = i + 1;
    }
    assert(sealed.len() == reactions@.len());
    stored
}

// ---------------------------------------------------------------------------
// A run
// ---------------------------------------------------------------------------

/// A run up to the purge that follows it.
pub open spec fn expired_before_purge(
    c: ContentState,
    v: Vault,
    s: StoreState,
    jobs: Seq<MessageHead>,
) -> Expiring {
    let e = expired_upto(
        Expiring { content: c, vault: v, store: s, tally: nothing_expired() },
        jobs,
        jobs.len() as int,
    );
    let sealed = sealed_reactions_listed(e.content, usize::MAX);
    reactions_retired(e, jobs, sealed, sealed.len() as int)
}

/// A run whose purge succeeded: what the purge counted is added.
pub open spec fn with_purge(
    c: ContentState,
    w: Vault,
    s: StoreState,
    before: ExpiryTally,
    t: PurgeTally,
) -> Expiring {
    Expiring {
        content: c,
        vault: w,
        store: s,
        tally: ExpiryTally {
            leaves: before.leaves + t.leaves,
            purged: before.purged + t.purged,
            messages: before.messages,
            reactions: before.reactions + t.reactions,
            files: before.files + t.files,
            slices: before.slices + t.slices,
            stored: before.stored || t.stored,
        },
    }
}

/// A failure of the purge as a run reports it.
pub open spec fn cascade_error(e: Seq<char>) -> Seq<char> {
    "content_purge cascade after expiry: "@ + purge_error(e)
}

/// The messages that a run expires at the time of the clock.
pub open spec fn jobs_at(c: ContentState, s: SettingsState, limit: usize) -> Seq<MessageHead> {
    match s.logical_time {
        None => Seq::empty(),
        Some(now_ms) => messages_to_expire(c, s, (now_ms as int / 60_000) as u64, limit),
    }
}

/// What a run leaves and returns, before events that it released are applied. Without an expired
/// message nothing happens. When the purge fails, what expired stays expired.
pub open spec fn expiry_done(
    c0: ContentState,
    v0: Vault,
    s0: StoreState,
    jobs: Seq<MessageHead>,
    c1: ContentState,
    v1: Vault,
    s1: StoreState,
    r: Result<ExpiryReport, String>,
) -> bool {
    if jobs.len() == 0 {
        &&& r matches Ok(report) && report.holds(nothing_expired())
        &&& c1 == c0
        &&& v1 == v0
        &&& s1 == s0
    } else {
        let e = expired_before_purge(c0, v0, s0, jobs);
        match purge_done(e.content, e.vault, e.store, first_shared(e.store, usize::MAX)) {
            Ok((c, w, s, t)) => {
                &&& r matches Ok(report) && report.holds(with_purge(c, w, s, e.tally, t).tally)
                &&& c1 == c
                &&& v1 == w
                &&& s1 == s
            },
            Err(x) => {
                &&& r matches Err(text) && text@ == cascade_error(x)
                &&& c1 == e.content
                &&& v1 == e.vault
                &&& s1 == e.store
            },
        }
    }
}

/// Whether a run stores an event.
pub open spec fn expiry_admits(
    c: ContentState,
    v: Vault,
    s: StoreState,
    jobs: Seq<MessageHead>,
) -> bool {
    let e = expired_before_purge(c, v, s, jobs);
    jobs.len() > 0 && (e.tally.stored || purge_admits(
        e.content,
        e.vault,
        e.store,
        first_shared(e.store, usize::MAX),
    ))
}

/// Expire the first `limit` expired messages. Tells beside the report whether an event was
/// stored.
fn drain(
    content: &mut ContentStore,
    history: &mut HistoryStore,
    store: &mut Store,
    settings: &SettingsStore,
    limit: usize,
) -> (r: (Result<ExpiryReport, String>, bool))
    requires
        old(content).wf(),
        old(history).wf(),
        old(store).wf(),
        settings.wf(),
    ensures
        final(content).wf(),
        final(history).wf(),
        final(store).wf(),
        expiry_done(
            old(content)@,
            vault(*old(history), old(store).events),
            old(store)@,
            jobs_at(old(content)@, settings@, limit),
            final(content)@,
            vault(*final(history), final(store).events),
            final(store)@,
            r.0,
        ),
        r.1 == expiry_admits(
            old(content)@,
            vault(*old(history), old(store).events),
            old(store)@,
            jobs_at(old(content)@, settings@, limit),
        ),
{
    let mut report = ExpiryReport {
        retired_message_leaves: 0,
        purged_event_bytes: 0,
        deleted_message_rows: 0,
        cascaded_reaction_rows: 0,
        cascaded_file_rows: 0,
        cascaded_file_slice_rows: 0,
    };
    let now_ms = match settings.logical_time {
        Some(now_ms) => now_ms,
        None => {
            return (Ok(report), false);
        },
    };
    let jobs = list_messages_to_expire(content, settings, now_ms / UNIX_MINUTE_MS, limit);
    if jobs.len() == 0 {
        return (Ok(report), false);
    }
    let ghost start = Expiring {
        content: content@,
        vault: vault(*history, store.events),
        store: store@,
        tally: nothing_expired(),
    };
    let ghost mut e = start;
    let mut stored = false;
    let mut i: usize = 0;
    while i < jobs.len()
        invariant
            content.wf(),
            history.wf(),
            store.wf(),
            i <= jobs@.len(),
            e == expired_upto(start, jobs@, i as int),
            expiring_at(e, *content, *history, *store, report),
            e.tally.stored == stored,
        decreases jobs.len() - i,
    {
        let admitted = process_job(content, history, store, &mut report, &jobs[i], Ghost(e));
        stored = stored || admitted;
        proof {
            e = expired_upto(start, jobs@, i + 1);
        }
        i = i + 1;
    }
    let reactions_admitted = retire_reaction_leaves_for_expired_messages(
        content,
        history,
        store,
        &jobs,
        &mut report,
        Ghost(e),
    );
    let (purged, purge_admitted) = crate::content_purge::drain(
        content,
        history,
        store,
        usize::MAX,
    );
    stored = stored || reactions_admitted || purge_admitted;
    match purged {
        Ok(cascade) => {
            report.cascaded_reaction_rows = report.cascaded_reaction_rows.saturating_add(
                cascade.reaction_rows_deleted,
            );
            report.cascaded_file_rows = report.cascaded_file_rows.saturating_add(
                cascade.file_rows_deleted,
            );
            report.cascaded_file_slice_rows = report.cascaded_file_slice_rows.saturating_add(
                cascade.file_slice_rows_deleted,
            );
            report.purged_event_bytes = report.purged_event_bytes.saturating_add(
                cascade.event_bytes_purged,
            );
            report.retired_message_leaves = report.retired_message_leaves.saturating_add(
                cascade.retired_message_leaves,
            );
            (Ok(report), stored)
        },
        Err(text) => (Err(prefixed("content_purge cascade after expiry: ", text)), stored),
    }
}

/// Work of the expiry.
#[derive(Debug, Clone, Copy, PartialEq, Eq)]
pub enum Work {
    /// Expire at most `limit` messages.
    Drain { limit: usize },
}

/// What a run returns whose released events were applied: its own failure, or that of the
/// projection, or what it counted.
pub open spec fn expiry_result(
    done: Result<ExpiryReport, String>,
    applied: Result<ApplyReadyReport, String>,
    r: Result<ExpiryReport, String>,
) -> bool {
    match (done, applied) {
        (Ok(_), Err(e)) => r matches Err(x) && x@ == "retire expired-minute leaf: "@ + e@,
        _ => r == done,
    }
}

/// What a run leaves and returns. Where a retired leaf left events to be stored, the events that
/// are ready then are applied; history and content stay as the expiry left them.
pub open spec fn run_done<R: EventRegistry>(
    registry: &R,
    c0: ContentState,
    v0: Vault,
    s0: StoreState,
    jobs: Seq<MessageHead>,
    c1: ContentState,
    v1: Vault,
    s1: StoreState,
    r: Result<ExpiryReport, String>,
) -> bool {
    if !expiry_admits(c0, v0, s0, jobs) {
        expiry_done(c0, v0, s0, jobs, c1, v1, s1, r)
    } else {
        &&& v1.events == s1.events
        &&& exists|v: Vault, s: StoreState, q: Result<ExpiryReport, String>, d: Result<
            ApplyReadyReport,
            String,
        >|
            #![trigger expiry_done(c0, v0, s0, jobs, c1, v, s, q), ready_applied(registry, s, s1, d)]
            expiry_done(c0, v0, s0, jobs, c1, v, s, q) && v1.history == v.history
                && ready_applied(registry, s, s1, d) && expiry_result(q, d, r)
    }
}

/// Run one unit of work.
pub fn run<R: EventRegistry>(
    content: &mut ContentStore,
    history: &mut HistoryStore,
    store: &mut Store,
    settings: &SettingsStore,
    registry: &R,
    work: Work,
) -> (r: Result<ExpiryReport, String>)
    requires
        old(content).wf(),
        old(history).wf(),
        old(store).wf(),
        settings.wf(),
    ensures
        final(content).wf(),
        final(history).wf(),
        final(store).wf(),
        work matches Work::Drain { limit } && run_done(
            registry,
            old(content)@,
            vault(*old(history), old(store).events),
            old(store)@,
            jobs_at(old(content)@, settings@, limit),
            final(content)@,
            vault(*final(history), final(store).events),
            final(store)@,
            r,
        ),
{
    match work {
        Work::Drain { limit } => {
            let (done, stored) = drain(content, history, store, settings, limit);
            if !stored {
                return done;
            }
            let ghost mid = store@;
            let applied = events::run(
                store,
                registry,
                DrainUntilIdle { batch_size: DEFAULT_READY_BATCH },
            );
            assert(ready_applied(registry, mid, store@, applied));
            match done {
                Err(e) => Err(e),
                Ok(report) => match applied {
                    Err(e) => Err(prefixed("retire expired-minute leaf: ", e)),
                    Ok(_) => Ok(report),
                },
            }
        },
    }
}

// ---------------------------------------------------------------------------
// Laws
// ---------------------------------------------------------------------------

/// Nothing expires while the clock is not set.
pub proof fn law_no_clock_no_expiry(c: ContentState, s: SettingsState, limit: usize)
    requires
        s.logical_time is None,
    ensures
        jobs_at(c, s, limit).len() == 0,
{
}

/// Every message that a run expires lies behind the clock, in a workspace with a time to live.
pub proof fn law_only_expired_messages_expire(
    sealed: Seq<SealedMessageView>,
    workspaces: Seq<WorkspaceRow>,
    now_minute: u64,
    n: int,
    i: int,
)
    requires
        0 <= n <= workspaces.len(),
        0 <= i < expired_in(sealed, workspaces, now_minute, n).len(),
    ensures
        ({
            let m = expired_in(sealed, workspaces, now_minute, n)[i];
            &&& exists|j: int|
                #![trigger sealed[j]]
                0 <= j < sealed.len() && sealed[j].head == m && sealed[j].expires_at_minute
                    != u64::MAX && sealed[j].expires_at_minute < now_minute
            &&& exists|k: int|
                #![trigger workspaces[k]]
                0 <= k < n && workspaces[k].workspace_id == m.workspace_id
                    && workspaces[k].disappearing_ttl_minutes != 0
        }),
    decreases n,
{
    if n > 0 {
        let before = expired_in(sealed, workspaces, now_minute, n - 1);
        let row = workspaces[n - 1];
        if i < before.len() {
            law_only_expired_messages_expire(sealed, workspaces, now_minute, n - 1, i);
        } else {
            lemma_expired_among(
                sealed,
                row.workspace_id,
                now_minute,
                sealed.len() as int,
                i - before.len(),
            );
        }
    }
}

proof fn lemma_expired_among(
    sealed: Seq<SealedMessageView>,
    workspace_id: EventId,
    now_minute: u64,
    n: int,
    i: int,
)
    requires
        0 <= n <= sealed.len(),
        0 <= i < expired_among(sealed, workspace_id, now_minute, n).len(),
    ensures
        ({
            let m = expired_among(sealed, workspace_id, now_minute, n)[i];
            &&& m.workspace_id == workspace_id
            &&& exists|j: int|
                #![trigger sealed[j]]
                0 <= j < n && sealed[j].head == m && sealed[j].expires_at_minute != u64::MAX
                    && sealed[j].expires_at_minute < now_minute
        }),
    decreases n,
{
    if n > 0 {
        let before = expired_among(sealed, workspace_id, now_minute, n - 1);
        if i < before.len() {
            lemma_expired_among(sealed, workspace_id, now_minute, n - 1, i);
        } else {
            assert(sealed[n - 1].head == expired_among(sealed, workspace_id, now_minute, n)[i]);
        }
    }
}

/// An expired message has no row any more and reads as deleted; its event is gone.
pub proof fn law_expired_message_is_gone(e: Expiring, m: MessageHead)
    ensures
        ({
            let after = message_removed(e, m);
            let key = message_key_bytes(m.workspace_id, m.message_id);
            &&& !after.content.messages.contains_key(key)
            &&& !after.content.sealed_messages.contains_key(key)
            &&& after.content.is_deleted(m.workspace_id, m.message_id)
            &&& !after.store.events.events.contains_key(m.message_id@)
        }),
{
}

/// The key of an expired message is gone too: where its leaf was kept, no kept row and no root
/// is left from which it could be derived.
pub proof fn law_expired_message_is_not_derivable(e: Expiring, m: MessageHead)
    requires
        valid_history(e.vault.history),
        e.vault.history.keeps(message_frontier(m), message_leaf(m)),
    ensures
        ({
            let h = message_expired(e, m).vault.history;
            &&& !h.has_root(message_frontier(m))
            &&& !h.keeps(message_frontier(m), message_leaf(m))
            &&& !covered(
                h,
                message_frontier(m),
                message_leaf(m).range_start,
                message_leaf(m).event_id_prefix,
            )
        }),
{
    law_retired_leaf_is_not_derivable(
        message_removed(e, m).vault,
        message_frontier(m),
        message_leaf(m).range_start,
        message_leaf(m).event_id_prefix,
    );
}

/// The frontier that a message was authored under.
pub open spec fn message_frontier(m: MessageHead) -> Frontier {
    Frontier { workspace_id: m.workspace_id, removal_frontier_id: m.removal_frontier_id }
}

/// The leaf of a message.
pub open spec fn message_leaf(m: MessageHead) -> Coord {
    leaf_coord(
        (m.created_at_ms as int / 60_000) as u64,
        message_coordinate(
            m.workspace_id,
            m.author_user_id,
            m.removal_frontier_id,
            m.created_at_ms,
        ),
    )
}

/// Two runs stand at the same content and the same history.
pub open spec fn agree(a: Expiring, b: Expiring) -> bool {
    a.content == b.content && a.vault.history == b.vault.history
}

proof fn lemma_expired_alike(a: Expiring, b: Expiring, jobs: Seq<MessageHead>, n: int)
    requires
        agree(a, b),
    ensures
        agree(expired_upto(a, jobs, n), expired_upto(b, jobs, n)),
    decreases n,
{
    if n > 0 {
        lemma_expired_alike(a, b, jobs, n - 1);
        let m = jobs[n - 1];
        law_retirement_is_deterministic(
            message_removed(expired_upto(a, jobs, n - 1), m).vault,
            message_removed(expired_upto(b, jobs, n - 1), m).vault,
            message_frontier(m),
            message_leaf(m).range_start,
            message_leaf(m).event_id_prefix,
        );
    }
}

proof fn lemma_reactions_alike(
    a: Expiring,
    b: Expiring,
    jobs: Seq<MessageHead>,
    sealed: Seq<SealedReactionView>,
    n: int,
)
    requires
        agree(a, b),
    ensures
        agree(
            reactions_retired(a, jobs, sealed, n),
            reactions_retired(b, jobs, sealed, n),
        ),
    decreases n,
{
    if n > 0 {
        lemma_reactions_alike(a, b, jobs, sealed, n - 1);
        let (p, q) = (
            reactions_retired(a, jobs, sealed, n - 1),
            reactions_retired(b, jobs, sealed, n - 1),
        );
        let r = sealed[n - 1].head;
        law_retirement_is_deterministic(
            p.vault,
            q.vault,
            Frontier {
                workspace_id: r.workspace_id,
                removal_frontier_id: r.removal_frontier_id,
            },
            (r.created_at_ms as int / 60_000) as u64,
            reaction_coordinate(
                r.workspace_id,
                r.author_user_id,
                r.target_message_id,
                r.removal_frontier_id,
                r.created_at_ms,
            ),
        );
    }
}

/// Peers that keep the same content rows and the same history expire the same messages and
/// retire the same leaves, whatever events they store.
pub proof fn law_peers_expire_alike(
    c: ContentState,
    a: Vault,
    b: Vault,
    x: StoreState,
    y: StoreState,
    jobs: Seq<MessageHead>,
)
    requires
        a.history == b.history,
    ensures
        agree(expired_before_purge(c, a, x, jobs), expired_before_purge(c, b, y, jobs)),
{
    let (p, q) = (
        Expiring { content: c, vault: a, store: x, tally: nothing_expired() },
        Expiring { content: c, vault: b, store: y, tally: nothing_expired() },
    );
    let n = jobs.len() as int;
    lemma_expired_alike(p, q, jobs, n);
    let sealed = sealed_reactions_listed(expired_upto(p, jobs, n).content, usize::MAX);
    lemma_reactions_alike(
        expired_upto(p, jobs, n),
        expired_upto(q, jobs, n),
        jobs,
        sealed,
        sealed.len() as int,
    );
}

proof fn lemma_expired_is_among(
    sealed: Seq<SealedMessageView>,
    workspace_id: EventId,
    now_minute: u64,
    n: int,
    i: int,
)
    requires
        0 <= i < n <= sealed.len(),
        sealed[i].head.workspace_id == workspace_id,
        sealed[i].expires_at_minute != u64::MAX,
        sealed[i].expires_at_minute < now_minute,
    ensures
        expired_among(sealed, workspace_id, now_minute, n).contains(sealed[i].head),
    decreases n,
{
    let all = expired_among(sealed, workspace_id, now_minute, n);
    let before = expired_among(sealed, workspace_id, now_minute, n - 1);
    if i < n - 1 {
        lemma_expired_is_among(sealed, workspace_id, now_minute, n - 1, i);
        let j = choose|j: int| 0 <= j < before.len() && before[j] == sealed[i].head;
        assert(all[j] == sealed[i].head);
    } else {
        assert(all.last() == sealed[i].head);
    }
}

proof fn lemma_expired_is_in(
    sealed: Seq<SealedMessageView>,
    workspaces: Seq<WorkspaceRow>,
    now_minute: u64,
    n: int,
    w: int,
    i: int,
)
    requires
        0 <= w < n <= workspaces.len(),
        0 <= i < sealed.len(),
        workspaces[w].workspace_id == sealed[i].head.workspace_id,
        workspaces[w].disappearing_ttl_minutes != 0,
        sealed[i].expires_at_minute != u64::MAX,
        sealed[i].expires_at_minute < now_minute,
    ensures
        expired_in(sealed, workspaces, now_minute, n).contains(sealed[i].head),
    decreases n,
{
    let all = expired_in(sealed, workspaces, now_minute, n);
    let before = expired_in(sealed, workspaces, now_minute, n - 1);
    if w < n - 1 {
        lemma_expired_is_in(sealed, workspaces, now_minute, n - 1, w, i);
        let j = choose|j: int| 0 <= j < before.len() && before[j] == sealed[i].head;
        assert(all[j] == sealed[i].head);
    } else {
        let more = expired_among(
            sealed,
            workspaces[w].workspace_id,
            now_minute,
            sealed.len() as int,
        );
        lemma_expired_is_among(
            sealed,
            workspaces[w].workspace_id,
            now_minute,
            sealed.len() as int,
            i,
        );
        let j = choose|j: int| 0 <= j < more.len() && more[j] == sealed[i].head;
        assert(all[before.len() + j] == sealed[i].head);
    }
}

/// A sealed message is due: its workspace has a time to live, and the last minute of the message
/// lies behind the clock, however far. A message with the last minute of all never is.
pub open spec fn is_due(c: ContentState, s: SettingsState, k: Seq<u8>, now_minute: u64) -> bool {
    &&& c.sealed_messages.contains_key(k)
    &&& c.sealed_messages[k].expires_at_minute < u64::MAX
    &&& c.sealed_messages[k].expires_at_minute < now_minute
    &&& exists|w: Seq<u8>| #[trigger]
        s.workspaces.contains_key(w) && s.workspaces[w].workspace_id
            == c.sealed_messages[k].head.workspace_id && s.workspaces[w].disappearing_ttl_minutes
            > 0
}

/// Exactly the messages that are due expire: each of them is among those that a run with a limit
/// that is large enough expires, and no other message is.
pub proof fn law_what_is_due_expires(c: ContentState, s: SettingsState, now_ms: u64, limit: usize)
    requires
        countable(c.sealed_messages.dom()),
        countable(s.workspaces.dom()),
        s.logical_time == Some(now_ms),
        expired_messages(c, s, (now_ms as int / 60_000) as u64).len() <= limit,
    ensures
        forall|k: Seq<u8>| #[trigger]
            is_due(c, s, k, (now_ms as int / 60_000) as u64) ==> jobs_at(c, s, limit).contains(
                c.sealed_messages[k].head,
            ),
        forall|m: MessageHead| #[trigger]
            jobs_at(c, s, limit).contains(m) ==> exists|k: Seq<u8>| #[trigger]
                is_due(c, s, k, (now_ms as int / 60_000) as u64) && c.sealed_messages[k].head == m,
{
    let now_minute = (now_ms as int / 60_000) as u64;
    let sealed = sealed_messages_listed(c, usize::MAX);
    let workspaces = all_workspaces(s);
    let keys = first_keys(c.sealed_messages, usize::MAX);
    lemma_prefix_listed(c.sealed_messages.dom(), Seq::empty());
    lemma_prefix_listed(s.workspaces.dom(), Seq::empty());
    lemma_values_under(s.workspaces, Seq::empty());
    assert forall|k: Seq<u8>| has_prefix(k, Seq::<u8>::empty()) by {
        assert(k.take(0) =~= Seq::<u8>::empty());
    }
    let jobs = jobs_at(c, s, limit);
    assert(jobs == expired_in(sealed, workspaces, now_minute, workspaces.len() as int));
    assert forall|k: Seq<u8>| #[trigger] is_due(c, s, k, now_minute) implies jobs.contains(
        c.sealed_messages[k].head,
    ) by {
        let w = choose|w: Seq<u8>| #[trigger]
            s.workspaces.contains_key(w) && s.workspaces[w].workspace_id
                == c.sealed_messages[k].head.workspace_id
                && s.workspaces[w].disappearing_ttl_minutes > 0;
        assert(workspaces.contains(s.workspaces[w]));
        let j = choose|j: int| 0 <= j < workspaces.len() && workspaces[j] == s.workspaces[w];
        assert(keys.contains(k));
        let i = choose|i: int| 0 <= i < keys.len() && keys[i] == k;
        assert(sealed[i] == c.sealed_messages[k]);
        lemma_expired_is_in(sealed, workspaces, now_minute, workspaces.len() as int, j, i);
    }
    assert forall|m: MessageHead| #[trigger] jobs.contains(m) implies exists|k: Seq<u8>| #[trigger]
        is_due(c, s, k, now_minute) && c.sealed_messages[k].head == m by {
        let i = choose|i: int| 0 <= i < jobs.len() && jobs[i] == m;
        law_only_expired_messages_expire(
            sealed,
            workspaces,
            now_minute,
            workspaces.len() as int,
            i,
        );
        let j = choose|j: int|
            #![trigger sealed[j]]
            0 <= j < sealed.len() && sealed[j].head == m && sealed[j].expires_at_minute
                != u64::MAX && sealed[j].expires_at_minute < now_minute;
        let x = choose|x: int|
            #![trigger workspaces[x]]
            0 <= x < workspaces.len() && workspaces[x].workspace_id == m.workspace_id
                && workspaces[x].disappearing_ttl_minutes != 0;
        assert(workspaces.contains(workspaces[x]));
        let w = choose|w: Seq<u8>| #[trigger]
            s.workspaces.contains_key(w) && has_prefix(w, Seq::empty()) && s.workspaces[w]
                == workspaces[x];
        assert(s.workspaces.contains_key(w));
        assert(keys.contains(keys[j]));
        assert(is_due(c, s, keys[j], now_minute));
    }
}

/// What is due at a minute is due at every later one.
pub proof fn law_due_stays_due(
    c: ContentState,
    s: SettingsState,
    k: Seq<u8>,
    now_minute: u64,
    later: u64,
)
    requires
        is_due(c, s, k, now_minute),
        now_minute <= later,
    ensures
        is_due(c, s, k, later),
        has_expired(c.sealed_messages[k].expires_at_minute, later),
{
}

/// A run expires the first messages that are due, and as many as its limit allows.
pub proof fn law_limit_cuts_the_expiry_short(
    c: ContentState,
    s: SettingsState,
    now_ms: u64,
    limit: usize,
)
    requires
        s.logical_time == Some(now_ms),
    ensures
        ({
            let all = expired_messages(c, s, (now_ms as int / 60_000) as u64);
            let jobs = jobs_at(c, s, limit);
            &&& jobs.is_prefix_of(all)
            &&& jobs.len() == limit || jobs == all
            &&& jobs.len() <= limit
        }),
{
    let all = expired_messages(c, s, (now_ms as int / 60_000) as u64);
    if all.len() <= limit {
        assert(all.take(all.len() as int) =~= all);
    }
}

/// The leaf that a message is sealed under.
pub open spec fn is_leaf_of(m: MessageHead, f: Frontier, minute: u64, leaf: EventId) -> bool {
    &&& m.workspace_id == f.workspace_id
    &&& m.removal_frontier_id == f.removal_frontier_id
    &&& m.created_at_ms as int / 60_000 == minute
    &&& message_coordinate(
        m.workspace_id,
        m.author_user_id,
        m.removal_frontier_id,
        m.created_at_ms,
    ) == leaf
}

/// The leaf that a reaction is sealed under.
pub open spec fn is_leaf_of_reaction(
    r: ReactionHead,
    f: Frontier,
    minute: u64,
    leaf: EventId,
) -> bool {
    &&& r.workspace_id == f.workspace_id
    &&& r.removal_frontier_id == f.removal_frontier_id
    &&& r.created_at_ms as int / 60_000 == minute
    &&& reaction_coordinate(
        r.workspace_id,
        r.author_user_id,
        r.target_message_id,
        r.removal_frontier_id,
        r.created_at_ms,
    ) == leaf
}

/// One more leaf is retired: another one is kept or gone as it was, and this one is gone.
proof fn lemma_one_leaf_retired(
    e: Expiring,
    frontier: Frontier,
    created_at_ms: u64,
    event_id_in_minute: EventId,
    f: Frontier,
    minute: u64,
    leaf: EventId,
)
    requires
        valid_history(e.vault.history),
        minute < TIME_TREE_ROOT_WIDTH,
        e.vault.history.keeps(f, leaf_coord(minute, leaf)) || leaf_is_gone(
            e.vault.history,
            f,
            minute,
            leaf,
        ),
    ensures
        ({
            let h = leaf_retired(e, frontier, created_at_ms, event_id_in_minute).vault.history;
            let this = frontier == f && created_at_ms as int / 60_000 == minute
                && event_id_in_minute == leaf;
            &&& valid_history(h)
            &&& this || leaf_is_gone(e.vault.history, f, minute, leaf) ==> leaf_is_gone(
                h,
                f,
                minute,
                leaf,
            )
            &&& !this && e.vault.history.keeps(f, leaf_coord(minute, leaf)) ==> h.keeps(
                f,
                leaf_coord(minute, leaf),
            )
        }),
{
    let m = (created_at_ms as int / 60_000) as u64;
    let h = leaf_retired(e, frontier, created_at_ms, event_id_in_minute).vault.history;
    assert(h == retired(e.vault, frontier, m, event_id_in_minute).0.history);
    if e.vault.history.keeps(f, leaf_coord(minute, leaf)) {
        law_leaf_stays_until_it_is_retired(
            e.vault,
            frontier,
            m,
            event_id_in_minute,
            f,
            minute,
            leaf,
        );
    } else {
        law_retirement_uncovers_for_good(
            e.vault,
            frontier,
            m,
            event_id_in_minute,
            f,
            minute,
            leaf,
        );
    }
    if h.keeps(f, leaf_coord(minute, leaf)) {
        lemma_kept_leaf_is_covered(h, f, minute, leaf);
    }
}

proof fn lemma_leaves_of_messages(
    e: Expiring,
    jobs: Seq<MessageHead>,
    n: int,
    f: Frontier,
    minute: u64,
    leaf: EventId,
)
    requires
        0 <= n <= jobs.len(),
        valid_history(e.vault.history),
        minute < TIME_TREE_ROOT_WIDTH,
        e.vault.history.keeps(f, leaf_coord(minute, leaf)),
    ensures
        ({
            let h = expired_upto(e, jobs, n).vault.history;
            let retires = exists|i: int| 0 <= i < n && is_leaf_of(#[trigger] jobs[i], f, minute, leaf);
            &&& valid_history(h)
            &&& retires ==> leaf_is_gone(h, f, minute, leaf)
            &&& !retires ==> h.keeps(f, leaf_coord(minute, leaf))
        }),
    decreases n,
{
    if n > 0 {
        lemma_leaves_of_messages(e, jobs, n - 1, f, minute, leaf);
        let m = jobs[n - 1];
        let p = expired_upto(e, jobs, n - 1);
        lemma_one_leaf_retired(
            message_removed(p, m),
            message_frontier(m),
            m.created_at_ms,
            message_leaf(m).event_id_prefix,
            f,
            minute,
            leaf,
        );
        if exists|i: int| 0 <= i < n && is_leaf_of(#[trigger] jobs[i], f, minute, leaf) {
            let i = choose|i: int| 0 <= i < n && is_leaf_of(#[trigger] jobs[i], f, minute, leaf);
            assert(i == n - 1 || exists|j: int|
                0 <= j < n - 1 && is_leaf_of(#[trigger] jobs[j], f, minute, leaf));
        }
        if is_leaf_of(m, f, minute, leaf) {
            assert(is_leaf_of(jobs[n - 1], f, minute, leaf));
        }
    }
}

proof fn lemma_leaves_of_reactions(
    e: Expiring,
    jobs: Seq<MessageHead>,
    sealed: Seq<SealedReactionView>,
    n: int,
    f: Frontier,
    minute: u64,
    leaf: EventId,
)
    requires
        0 <= n <= sealed.len(),
        valid_history(e.vault.history),
        minute < TIME_TREE_ROOT_WIDTH,
        e.vault.history.keeps(f, leaf_coord(minute, leaf)) || leaf_is_gone(
            e.vault.history,
            f,
            minute,
            leaf,
        ),
    ensures
        ({
            let h = reactions_retired(e, jobs, sealed, n).vault.history;
            let retires = exists|i: int|
                0 <= i < n && reacts_to_expired(jobs, (#[trigger] sealed[i]).head)
                    && is_leaf_of_reaction(sealed[i].head, f, minute, leaf);
            &&& valid_history(h)
            &&& retires || leaf_is_gone(e.vault.history, f, minute, leaf) ==> leaf_is_gone(
                h,
                f,
                minute,
                leaf,
            )
            &&& !retires && e.vault.history.keeps(f, leaf_coord(minute, leaf)) ==> h.keeps(
                f,
                leaf_coord(minute, leaf),
            )
        }),
    decreases n,
{
    if n > 0 {
        lemma_leaves_of_reactions(e, jobs, sealed, n - 1, f, minute, leaf);
        let r = sealed[n - 1].head;
        let p = reactions_retired(e, jobs, sealed, n - 1);
        if reacts_to_expired(jobs, r) {
            lemma_one_leaf_retired(
                p,
                Frontier {
                    workspace_id: r.workspace_id,
                    removal_frontier_id: r.removal_frontier_id,
                },
                r.created_at_ms,
                reaction_coordinate(
                    r.workspace_id,
                    r.author_user_id,
                    r.target_message_id,
                    r.removal_frontier_id,
                    r.created_at_ms,
                ),
                f,
                minute,
                leaf,
            );
            if is_leaf_of_reaction(r, f, minute, leaf) {
                assert(is_leaf_of_reaction(sealed[n - 1].head, f, minute, leaf));
            }
        }
        if exists|i: int|
            0 <= i < n && reacts_to_expired(jobs, (#[trigger] sealed[i]).head)
                && is_leaf_of_reaction(sealed[i].head, f, minute, leaf) {
            let i = choose|i: int|
                0 <= i < n && reacts_to_expired(jobs, (#[trigger] sealed[i]).head)
                    && is_leaf_of_reaction(sealed[i].head, f, minute, leaf);
            assert(i == n - 1 || exists|j: int|
                0 <= j < n - 1 && reacts_to_expired(jobs, (#[trigger] sealed[j]).head)
                    && is_leaf_of_reaction(sealed[j].head, f, minute, leaf));
        }
    }
}

proof fn lemma_reactions_keep_content(
    e: Expiring,
    jobs: Seq<MessageHead>,
    sealed: Seq<SealedReactionView>,
    n: int,
)
    ensures
        reactions_retired(e, jobs, sealed, n).content == e.content,
    decreases n,
{
    if n > 0 {
        lemma_reactions_keep_content(e, jobs, sealed, n - 1);
    }
}

/// What happens to the rows of a message: one of the messages that expire loses them and gets a
/// tombstone, any other keeps them.
proof fn lemma_rows_of_messages(e: Expiring, jobs: Seq<MessageHead>, n: int, w: EventId, x: EventId)
    requires
        0 <= n <= jobs.len(),
    ensures
        ({
            let c = expired_upto(e, jobs, n).content;
            let key = message_key_bytes(w, x);
            let expires = exists|i: int|
                0 <= i < n && (#[trigger] jobs[i]).workspace_id == w && jobs[i].message_id == x;
            &&& c.sealed_reactions == e.content.sealed_reactions
            &&& expires ==> !c.messages.contains_key(key) && !c.sealed_messages.contains_key(key)
                && c.message_tombstones.contains_key(key)
            &&& !expires ==> c.messages.contains_key(key) == e.content.messages.contains_key(key)
                && c.sealed_messages.contains_key(key) == e.content.sealed_messages.contains_key(
                key,
            ) && c.sealed_messages[key] == e.content.sealed_messages[key]
                && c.message_tombstones.contains_key(key)
                == e.content.message_tombstones.contains_key(key)
        }),
    decreases n,
{
    if n > 0 {
        lemma_rows_of_messages(e, jobs, n - 1, w, x);
        let m = jobs[n - 1];
        let key = message_key_bytes(w, x);
        if message_key_bytes(m.workspace_id, m.message_id) == key {
            assert(key.take(32) =~= w@);
            assert(key.skip(32) =~= x@);
            assert(message_key_bytes(m.workspace_id, m.message_id).take(32) =~= m.workspace_id@);
            assert(message_key_bytes(m.workspace_id, m.message_id).skip(32) =~= m.message_id@);
            lemma_id_ext(m.workspace_id, w);
            lemma_id_ext(m.message_id, x);
            assert(jobs[n - 1].workspace_id == w);
        }
        if exists|i: int|
            0 <= i < n && (#[trigger] jobs[i]).workspace_id == w && jobs[i].message_id == x {
            let i = choose|i: int|
                0 <= i < n && (#[trigger] jobs[i]).workspace_id == w && jobs[i].message_id == x;
            assert(i == n - 1 || exists|j: int|
                0 <= j < n - 1 && (#[trigger] jobs[j]).workspace_id == w && jobs[j].message_id
                    == x);
        }
    }
}

/// A run expires every message that it set out to, and no other: each of them loses its rows and
/// gets a tombstone, and every other message keeps its rows and gets none.
pub proof fn law_run_expires_its_messages(
    c: ContentState,
    v: Vault,
    s: StoreState,
    jobs: Seq<MessageHead>,
    w: EventId,
    x: EventId,
)
    ensures
        ({
            let after = expired_before_purge(c, v, s, jobs).content;
            let key = w@ + x@;
            let expires = exists|i: int|
                0 <= i < jobs.len() && (#[trigger] jobs[i]).workspace_id == w && jobs[i].message_id
                    == x;
            &&& expires ==> !after.messages.contains_key(key)
                && !after.sealed_messages.contains_key(key)
                && after.message_tombstones.contains_key(key)
            &&& !expires ==> after.messages.contains_key(key) == c.messages.contains_key(key)
                && after.sealed_messages.contains_key(key) == c.sealed_messages.contains_key(key)
                && after.sealed_messages[key] == c.sealed_messages[key]
                && after.message_tombstones.contains_key(key)
                == c.message_tombstones.contains_key(key)
        }),
{
    let start = Expiring { content: c, vault: v, store: s, tally: nothing_expired() };
    let e = expired_upto(start, jobs, jobs.len() as int);
    let sealed = sealed_reactions_listed(e.content, usize::MAX);
    lemma_rows_of_messages(start, jobs, jobs.len() as int, w, x);
    lemma_reactions_keep_content(e, jobs, sealed, sealed.len() as int);
    assert(message_key_bytes(w, x) == w@ + x@);
}

/// A run retires the leaves of every message that it expires and of every sealed reaction to one
/// of them, and no other kept leaf. What it retires is not kept, and nothing that is kept leads
/// to it.
pub proof fn law_run_retires_every_expired_leaf(
    c: ContentState,
    v: Vault,
    s: StoreState,
    jobs: Seq<MessageHead>,
    f: Frontier,
    minute: u64,
    leaf: EventId,
)
    requires
        valid_history(v.history),
        countable(c.sealed_reactions.dom()),
        minute < TIME_TREE_ROOT_WIDTH,
        v.history.keeps(f, leaf_coord(minute, leaf)),
    ensures
        ({
            let h = expired_before_purge(c, v, s, jobs).vault.history;
            let retires = {
                ||| exists|i: int|
                    0 <= i < jobs.len() && is_leaf_of(#[trigger] jobs[i], f, minute, leaf)
                ||| exists|k: Seq<u8>, i: int|
                    {
                        &&& #[trigger] c.sealed_reactions.contains_key(k)
                        &&& 0 <= i < jobs.len()
                        &&& (#[trigger] jobs[i]).workspace_id
                            == c.sealed_reactions[k].head.workspace_id
                        &&& jobs[i].message_id == c.sealed_reactions[k].head.target_message_id
                        &&& is_leaf_of_reaction(c.sealed_reactions[k].head, f, minute, leaf)
                    }
            };
            &&& retires ==> !h.has_root(f) && !h.keeps(f, leaf_coord(minute, leaf)) && !covered(
                h,
                f,
                minute,
                leaf,
            )
            &&& !retires ==> h.keeps(f, leaf_coord(minute, leaf))
        }),
{
    let start = Expiring { content: c, vault: v, store: s, tally: nothing_expired() };
    let n = jobs.len() as int;
    let e = expired_upto(start, jobs, n);
    let sealed = sealed_reactions_listed(e.content, usize::MAX);
    lemma_leaves_of_messages(start, jobs, n, f, minute, leaf);
    lemma_rows_of_messages(start, jobs, n, f.workspace_id, leaf);
    lemma_leaves_of_reactions(e, jobs, sealed, sealed.len() as int, f, minute, leaf);
    let keys = first_keys(c.sealed_reactions, usize::MAX);
    lemma_first_keys(c.sealed_reactions, usize::MAX);
    if exists|k: Seq<u8>, i: int|
        {
            &&& #[trigger] c.sealed_reactions.contains_key(k)
            &&& 0 <= i < jobs.len()
            &&& (#[trigger] jobs[i]).workspace_id == c.sealed_reactions[k].head.workspace_id
            &&& jobs[i].message_id == c.sealed_reactions[k].head.target_message_id
            &&& is_leaf_of_reaction(c.sealed_reactions[k].head, f, minute, leaf)
        } {
        let (k, i) = choose|k: Seq<u8>, i: int|
            {
                &&& #[trigger] c.sealed_reactions.contains_key(k)
                &&& 0 <= i < jobs.len()
                &&& (#[trigger] jobs[i]).workspace_id == c.sealed_reactions[k].head.workspace_id
                &&& jobs[i].message_id == c.sealed_reactions[k].head.target_message_id
                &&& is_leaf_of_reaction(c.sealed_reactions[k].head, f, minute, leaf)
            };
        assert(keys.contains(k));
        let j = choose|j: int| 0 <= j < keys.len() && keys[j] == k;
        assert(sealed[j] == c.sealed_reactions[k]);
        assert(reacts_to_expired(jobs, sealed[j].head));
    }
    if exists|j: int|
        0 <= j < sealed.len() && reacts_to_expired(jobs, (#[trigger] sealed[j]).head)
            && is_leaf_of_reaction(sealed[j].head, f, minute, leaf) {
        let j = choose|j: int|
            0 <= j < sealed.len() && reacts_to_expired(jobs, (#[trigger] sealed[j]).head)
                && is_leaf_of_reaction(sealed[j].head, f, minute, leaf);
        assert(keys.contains(keys[j]));
        assert(c.sealed_reactions.contains_key(keys[j]));
        assert(sealed[j] == c.sealed_reactions[keys[j]]);
        let i = choose|i: int|
            #![trigger jobs[i]]
            0 <= i < jobs.len() && jobs[i].workspace_id == sealed[j].head.workspace_id
                && jobs[i].message_id == sealed[j].head.target_message_id;
        assert(jobs[i].workspace_id == c.sealed_reactions[keys[j]].head.workspace_id);
    }
}

/// The purge that follows brings no retired leaf back.
pub proof fn law_expired_leaf_stays_gone(
    c: ContentState,
    v: Vault,
    s: StoreState,
    jobs: Seq<MessageHead>,
    f: Frontier,
    minute: u64,
    leaf: EventId,
)
    requires
        valid_history(expired_before_purge(c, v, s, jobs).vault.history),
        leaf_is_gone(expired_before_purge(c, v, s, jobs).vault.history, f, minute, leaf),
    ensures
        ({
            let e = expired_before_purge(c, v, s, jobs);
            purge_done(e.content, e.vault, e.store, first_shared(e.store, usize::MAX)) matches Ok(
                (_, w, _, _),
            ) ==> leaf_is_gone(w.history, f, minute, leaf)
        }),
{
    let e = expired_before_purge(c, v, s, jobs);
    let ids = first_shared(e.store, usize::MAX);
    if purge_scanned(e.content, e.store, ids) is Ok {
        let p = purge_scanned(e.content, e.store, ids)->Ok_0;
        lemma_gone_stays_gone(
            Vault { events: p.store.events, ..e.vault },
            p.jobs,
            p.jobs.len() as int,
            f,
            minute,
            leaf,
        );
    }
}

} // verus!
