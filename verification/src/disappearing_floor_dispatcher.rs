//! Chopping history to the floor that settings and the clock ask for.
//!
//! The floor of a workspace is that of its setting in force, or the horizon behind the clock,
//! whichever is later. A frontier whose floor has moved on since it was last chopped is chopped
//! again; the new floor is remembered. Where a chop stored an event, the events that are ready
//! then are applied. Nothing happens while the clock is not set.
use vstd::prelude::*;
use crate::bytes::{has_prefix, id_pair, lemma_id_with, EventId};
use crate::content::{ContentState, ContentStore, MessageTombstoneRow};
use crate::events::{
    self, ready_applied, saturated, ApplyReadyReport, DrainUntilIdle, EventRegistry,
    DEFAULT_READY_BATCH,
};
use crate::history::{Frontier, HistoryNodeRow};
use crate::history_chop::{chop_admits, chop_time_tree_prefix, chopped};
use crate::history_chop_laws::{law_chop_is_deterministic, law_chop_keeps_nothing_below_the_floor};
use crate::history_laws::minute_covered;
use crate::history_store::{lemma_frontier_key_injective, valid_history, HistoryState, HistoryStore};
use crate::history_tree::{vault, Vault, UNIX_MINUTE_MS};
use crate::keys::lemma_values_under;
use crate::settings::{
    active_for_workspace, all_workspaces, chopped_floor, frontiers_of,
    law_setting_in_force_is_the_latest, list_frontiers, list_workspaces, setting_floor,
    setting_in_force, valid_frontiers, FloorRow, SettingsState, SettingsStore, WorkspaceRow,
    COVER_HORIZON_MINUTES,
};
use crate::store::{Store, StoreState};
use crate::table::{countable, lemma_listing_exists, listing, with_prefix};
use crate::text::prefixed;

verus! {

/// What a run counted.
#[derive(Debug, Clone, Copy, PartialEq, Eq)]
pub struct DispatchReport {
    /// Frontiers that were looked at.
    pub frontiers_visited: usize,
    /// Frontiers that were chopped.
    pub chops_issued: usize,
    pub subtree_tombstones_written: usize,
    pub boundary_descend_tombstones_written: usize,
    pub right_side_siblings_materialized: usize,
    pub purged_event_bytes: usize,
}

/// What a run counted, without machine limits.
pub struct DispatchTally {
    pub visited: nat,
    pub chops: nat,
    pub subtrees: nat,
    pub boundary: nat,
    pub siblings: nat,
    pub purged: nat,
    /// Some event was stored: a node that a chop left above a floor.
    pub stored: bool,
}

/// The counts before anything is chopped.
pub open spec fn no_chops() -> DispatchTally {
    DispatchTally {
        visited: 0,
        chops: 0,
        subtrees: 0,
        boundary: 0,
        siblings: 0,
        purged: 0,
        stored: false,
    }
}

impl DispatchReport {
    /// A report holds some counts.
    pub open spec fn holds(&self, t: DispatchTally) -> bool {
        &&& self.frontiers_visited == t.visited
        &&& self.chops_issued == t.chops
        &&& self.subtree_tombstones_written == saturated(t.subtrees as int)
        &&& self.boundary_descend_tombstones_written == saturated(t.boundary as int)
        &&& self.right_side_siblings_materialized == saturated(t.siblings as int)
        &&& self.purged_event_bytes == saturated(t.purged as int)
    }
}

/// A frontier and the floor that it is to have.
#[derive(Debug, Clone, Copy, PartialEq, Eq)]
pub struct FloorTarget {
    pub frontier: Frontier,
    pub floor_minute: u64,
}

/// The floor that the clock asks for: the cover horizon behind the minute.
pub open spec fn horizon_floor(now_ms: u64) -> u64 {
    let minute = now_ms as int / 60_000;
    if minute >= COVER_HORIZON_MINUTES {
        (minute - COVER_HORIZON_MINUTES) as u64
    } else {
        0
    }
}

/// The floor of a workspace: the later one of its setting's and the clock's.
pub open spec fn effective_floor(s: SettingsState, workspace_id: EventId, now_ms: u64) -> u64 {
    if setting_floor(s, workspace_id) >= horizon_floor(now_ms) {
        setting_floor(s, workspace_id)
    } else {
        horizon_floor(now_ms)
    }
}

/// The frontiers of a workspace with the floor that they are to have.
pub open spec fn workspace_targets(s: SettingsState, workspace_id: EventId, now_ms: u64) -> Seq<
    FloorTarget,
> {
    frontiers_of(s, workspace_id).map_values(
        |f: EventId|
            FloorTarget {
                frontier: Frontier { workspace_id, removal_frontier_id: f },
                floor_minute: effective_floor(s, workspace_id, now_ms),
            },
    )
}

/// The frontiers of the first `n` workspaces with the floors that they are to have.
pub open spec fn targets_upto(s: SettingsState, workspaces: Seq<WorkspaceRow>, now_ms: u64, n: int) -> Seq<
    FloorTarget,
>
    decreases n,
{
    if n <= 0 {
        Seq::empty()
    } else {
        targets_upto(s, workspaces, now_ms, n - 1) + workspace_targets(
            s,
            workspaces[n - 1].workspace_id,
            now_ms,
        )
    }
}

/// All frontiers with the floors that they are to have, workspace by workspace.
pub open spec fn floor_targets(s: SettingsState, now_ms: u64) -> Seq<FloorTarget> {
    let workspaces = all_workspaces(s);
    targets_upto(s, workspaces, now_ms, workspaces.len() as int)
}

/// List all frontiers with the floors that they are to have.
fn list_targets(settings: &SettingsStore, now_ms: u64) -> (r: Vec<FloorTarget>)
    requires
        settings.wf(),
    ensures
        r@ == floor_targets(settings@, now_ms),
{
    let now_minute: u64 = now_ms / UNIX_MINUTE_MS;
    let horizon: u64 = now_minute.saturating_sub(COVER_HORIZON_MINUTES);
    let workspaces = list_workspaces(settings);
    let mut out: Vec<FloorTarget> = Vec::new();
    let mut i: usize = 0;
    while i < workspaces.len()
        invariant
            settings.wf(),
            i <= workspaces@.len(),
            workspaces@ == all_workspaces(settings@),
            horizon == horizon_floor(now_ms),
            out@ == targets_upto(settings@, workspaces@, now_ms, i as int),
        decreases workspaces.len() - i,
    {
        let workspace_id = workspaces[i].workspace_id;
        let from_setting: u64 = match active_for_workspace(settings, &workspace_id) {
            Some(row) => row.expires_at_or_before_minute,
            None => 0,
        };
        let floor_minute: u64 = if from_setting >= horizon {
            from_setting
        } else {
            horizon
        };
        let frontiers = list_frontiers(settings, &workspace_id);
        let ghost before = out@;
        let ghost targets = workspace_targets(settings@, workspace_id, now_ms);
        let mut j: usize = 0;
        assert(out@ =~= before + targets.take(0));
        while j < frontiers.len()
            invariant
                j <= frontiers@.len(),
                frontiers@ == frontiers_of(settings@, workspace_id),
                floor_minute == effective_floor(settings@, workspace_id, now_ms),
                targets == workspace_targets(settings@, workspace_id, now_ms),
                out@ == before + targets.take(j as int),
            decreases frontiers.len() - j,
        {
            out.push(
                FloorTarget {
                    frontier: Frontier { workspace_id, removal_frontier_id: frontiers[j] },
                    floor_minute,
                },
            );
            proof {
                assert(targets.take(j + 1) =~= targets.take(j as int).push(targets[j as int]));
                assert(out@ =~= before + targets.take(j + 1));
            }
            j = j + 1;
        }
        assert(targets.take(j as int) =~= targets);
        i = i + 1;
    }
    out
}

/// Where a dispatch stands: the vault, the tombstones of messages, the floors, the counts.
pub struct Dispatching {
    pub vault: Vault,
    pub messages: Map<Seq<u8>, MessageTombstoneRow>,
    pub floors: Map<Seq<u8>, u64>,
    pub tally: DispatchTally,
}

/// The key of a frontier.
pub open spec fn floor_key(f: Frontier) -> Seq<u8> {
    f.workspace_id@ + f.removal_frontier_id@
}

/// The floor that a frontier was last chopped to, or zero.
pub open spec fn last_floor(floors: Map<Seq<u8>, u64>, f: Frontier) -> u64 {
    match chopped_floor(floors, floor_key(f)) {
        Some(minute) => minute,
        None => 0,
    }
}

/// A dispatch after one more frontier: it is chopped when its floor has moved on.
pub open spec fn dispatch_step(d: Dispatching, target: FloorTarget) -> Dispatching {
    let visited = DispatchTally { visited: d.tally.visited + 1, ..d.tally };
    if target.floor_minute <= last_floor(d.floors, target.frontier) {
        Dispatching { tally: visited, ..d }
    } else {
        let (v, messages, report) = chopped(
            d.vault,
            d.messages,
            target.frontier,
            target.floor_minute,
        );
        Dispatching {
            vault: v,
            messages,
            floors: d.floors.insert(floor_key(target.frontier), target.floor_minute),
            tally: DispatchTally {
                chops: d.tally.chops + 1,
                subtrees: d.tally.subtrees + report.subtree_tombstones_written as nat,
                boundary: d.tally.boundary + report.boundary_descend_tombstones_written as nat,
                siblings: d.tally.siblings + report.right_side_siblings_materialized as nat,
                purged: d.tally.purged + report.purged_event_bytes as nat,
                stored: d.tally.stored || chop_admits(
                    d.vault,
                    target.frontier,
                    target.floor_minute,
                ),
                ..visited
            },
        }
    }
}

/// A dispatch after the first `n` frontiers. Not more than `limit` of them are chopped; once
/// that many are, the rest is left for the next run.
pub open spec fn dispatched_upto(d: Dispatching, targets: Seq<FloorTarget>, limit: nat, n: int) -> Dispatching
    decreases n,
{
    if n <= 0 {
        d
    } else {
        let p = dispatched_upto(d, targets, limit, n - 1);
        if p.tally.chops >= limit {
            p
        } else {
            dispatch_step(p, targets[n - 1])
        }
    }
}

proof fn lemma_dispatch_full(
    d: Dispatching,
    targets: Seq<FloorTarget>,
    limit: nat,
    m: int,
    n: int,
)
    requires
        m <= n,
        dispatched_upto(d, targets, limit, m).tally.chops >= limit,
    ensures
        dispatched_upto(d, targets, limit, n) == dispatched_upto(d, targets, limit, m),
    decreases n - m,
{
    if m < n {
        lemma_dispatch_full(d, targets, limit, m, n - 1);
    }
}

/// The state that a dispatch starts from.
pub open spec fn dispatch_start(
    v: Vault,
    messages: Map<Seq<u8>, MessageTombstoneRow>,
    floors: Map<Seq<u8>, u64>,
) -> Dispatching {
    Dispatching { vault: v, messages, floors, tally: no_chops() }
}

/// A run over all frontiers, with the clock set.
pub open spec fn dispatched(
    v: Vault,
    messages: Map<Seq<u8>, MessageTombstoneRow>,
    s: SettingsState,
    limit: usize,
) -> Dispatching {
    match s.logical_time {
        None => dispatch_start(v, messages, s.floors),
        Some(now_ms) => {
            let targets = floor_targets(s, now_ms);
            dispatched_upto(
                dispatch_start(v, messages, s.floors),
                targets,
                limit as nat,
                targets.len() as int,
            )
        },
    }
}

/// What a dispatch leaves and returns, before events that it released are applied.
pub open spec fn dispatch_done(
    d: Dispatching,
    s0: StoreState,
    c0: ContentState,
    t0: SettingsState,
    v1: Vault,
    s1: StoreState,
    c1: ContentState,
    t1: SettingsState,
    report: DispatchReport,
) -> bool {
    &&& v1 == d.vault
    &&& s1 == (StoreState { events: d.vault.events, ..s0 })
    &&& c1 == (ContentState { message_tombstones: d.messages, ..c0 })
    &&& t1 == (SettingsState { floors: d.floors, ..t0 })
    &&& report.holds(d.tally)
}

/// Chop a frontier and remember its floor. Tells whether an event was stored.
fn chop_one(
    history: &mut HistoryStore,
    store: &mut Store,
    content: &mut ContentStore,
    settings: &mut SettingsStore,
    target: &FloorTarget,
    report: &mut DispatchReport,
    Ghost(d): Ghost<Dispatching>,
) -> (stored: bool)
    requires
        old(history).wf(),
        old(store).wf(),
        old(content).wf(),
        old(settings).wf(),
        d.vault == vault(*old(history), old(store).events),
        d.messages == old(content)@.message_tombstones,
        d.floors == old(settings)@.floors,
        old(report).holds(
            DispatchTally { visited: d.tally.visited + 1, ..d.tally },
        ),
        d.tally.chops < usize::MAX,
        target.floor_minute > last_floor(d.floors, target.frontier),
    ensures
        final(history).wf(),
        final(store).wf(),
        final(content).wf(),
        final(settings).wf(),
        ({
            let after = dispatch_step(d, *target);
            &&& vault(*final(history), final(store).events) == after.vault
            &&& final(store)@.rows == old(store)@.rows
            &&& final(content)@ == (ContentState {
                message_tombstones: after.messages,
                ..old(content)@
            })
            &&& final(settings)@ == (SettingsState { floors: after.floors, ..old(settings)@ })
            &&& final(report).holds(after.tally)
            &&& after.tally.stored == (d.tally.stored || stored)
        }),
{
    let (chop, stored) = chop_time_tree_prefix(
        history,
        &mut store.events,
        &mut content.message_tombstones,
        target.frontier,
        target.floor_minute,
    );
    report.chops_issued = report.chops_issued + 1;
    report.subtree_tombstones_written = report.subtree_tombstones_written.saturating_add(
        chop.subtree_tombstones_written,
    );
    report.boundary_descend_tombstones_written =
    report.boundary_descend_tombstones_written.saturating_add(
        chop.boundary_descend_tombstones_written,
    );
    report.right_side_siblings_materialized =
    report.right_side_siblings_materialized.saturating_add(chop.right_side_siblings_materialized);
    report.purged_event_bytes = report.purged_event_bytes.saturating_add(chop.purged_event_bytes);
    settings.floors.put(
        id_pair(&target.frontier.workspace_id, &target.frontier.removal_frontier_id),
        FloorRow { minute: target.floor_minute },
    );
    stored
}

/// Chop every frontier whose floor has moved on, at most `limit` of them. Tells beside the report
/// whether an event was stored.
fn drain(
    history: &mut HistoryStore,
    store: &mut Store,
    content: &mut ContentStore,
    settings: &mut SettingsStore,
    limit: usize,
) -> (r: (DispatchReport, bool))
    requires
        old(history).wf(),
        old(store).wf(),
        old(content).wf(),
        old(settings).wf(),
    ensures
        final(history).wf(),
        final(store).wf(),
        final(content).wf(),
        final(settings).wf(),
        dispatch_done(
            dispatched(
                vault(*old(history), old(store).events),
                old(content)@.message_tombstones,
                old(settings)@,
                limit,
            ),
            old(store)@,
            old(content)@,
            old(settings)@,
            vault(*final(history), final(store).events),
            final(store)@,
            final(content)@,
            final(settings)@,
            r.0,
        ),
        r.1 == dispatched(
            vault(*old(history), old(store).events),
            old(content)@.message_tombstones,
            old(settings)@,
            limit,
        ).tally.stored,
{
    let mut report = DispatchReport {
        frontiers_visited: 0,
        chops_issued: 0,
        subtree_tombstones_written: 0,
        boundary_descend_tombstones_written: 0,
        right_side_siblings_materialized: 0,
        purged_event_bytes: 0,
    };
    let now_ms = match settings.logical_time {
        Some(now_ms) => now_ms,
        None => {
            return (report, false);
        },
    };
    let targets = list_targets(settings, now_ms);
    let ghost start = dispatch_start(
        vault(*history, store.events),
        content@.message_tombstones,
        settings@.floors,
    );
    let ghost mut d = start;
    let mut stored = false;
    let mut i: usize = 0;
    while i < targets.len() && report.chops_issued < limit
        invariant
            history.wf(),
            store.wf(),
            content.wf(),
            settings.wf(),
            i <= targets@.len(),
            start == dispatch_start(
                vault(*old(history), old(store).events),
                old(content)@.message_tombstones,
                old(settings)@.floors,
            ),
            d == dispatched_upto(start, targets@, limit as nat, i as int),
            vault(*history, store.events) == d.vault,
            store@.rows == old(store)@.rows,
            content@ == (ContentState { message_tombstones: d.messages, ..old(content)@ }),
            settings@ == (SettingsState { floors: d.floors, ..old(settings)@ }),
            report.holds(d.tally),
            d.tally.visited <= i,
            d.tally.chops <= i,
            d.tally.stored == stored,
        decreases targets.len() - i,
    {
        let target = targets[i];
        report.frontiers_visited = report.frontiers_visited + 1;
        let last: u64 = match settings.last_chopped_floor(
            &target.frontier.workspace_id,
            &target.frontier.removal_frontier_id,
        ) {
            Some(minute) => minute,
            None => 0,
        };
        if target.floor_minute > last {
            let admitted = chop_one(
                history,
                store,
                content,
                settings,
                &target,
                &mut report,
                Ghost(d),
            );
            stored = stored || admitted;
        }
        proof {
            d = dispatched_upto(start, targets@, limit as nat, i + 1);
        }
        i = i + 1;
    }
    proof {
        if i < targets@.len() {
            lemma_dispatch_full(start, targets@, limit as nat, i as int, targets@.len() as int);
        }
    }
    (report, stored)
}

/// Work of the dispatcher.
#[derive(Debug, Clone, Copy, PartialEq, Eq)]
pub enum Work {
    /// Chop at most `limit` frontiers.
    Drain { limit: usize },
}

/// What a run returns whose released events were applied: what it counted, or why the projection
/// failed.
pub open spec fn dispatch_result(
    report: DispatchReport,
    applied: Result<ApplyReadyReport, String>,
    r: Result<DispatchReport, String>,
) -> bool {
    match applied {
        Ok(_) => r == Ok::<DispatchReport, String>(report),
        Err(e) => r matches Err(x) && x@ == "dispatch chop: "@ + e@,
    }
}

/// What a run leaves and returns. Where a chop stored an event, the events that are ready then
/// are applied; history, content and floors stay as the dispatch left them.
pub open spec fn run_done<R: EventRegistry>(
    registry: &R,
    d: Dispatching,
    s0: StoreState,
    c0: ContentState,
    t0: SettingsState,
    v1: Vault,
    s1: StoreState,
    c1: ContentState,
    t1: SettingsState,
    r: Result<DispatchReport, String>,
) -> bool {
    if !d.tally.stored {
        r matches Ok(report) && dispatch_done(d, s0, c0, t0, v1, s1, c1, t1, report)
    } else {
        &&& v1.events == s1.events
        &&& exists|v: Vault, s: StoreState, q: DispatchReport, a: Result<ApplyReadyReport, String>|
            #![trigger dispatch_done(d, s0, c0, t0, v, s, c1, t1, q), ready_applied(registry, s, s1, a)]
            dispatch_done(d, s0, c0, t0, v, s, c1, t1, q) && v1.history == v.history
                && ready_applied(registry, s, s1, a) && dispatch_result(q, a, r)
    }
}

/// Run one unit of work.
pub fn run<R: EventRegistry>(
    history: &mut HistoryStore,
    store: &mut Store,
    content: &mut ContentStore,
    settings: &mut SettingsStore,
    registry: &R,
    work: Work,
) -> (r: Result<DispatchReport, String>)
    requires
        old(history).wf(),
        old(store).wf(),
        old(content).wf(),
        old(settings).wf(),
    ensures
        final(history).wf(),
        final(store).wf(),
        final(content).wf(),
        final(settings).wf(),
        work matches Work::Drain { limit } && run_done(
            registry,
            dispatched(
                vault(*old(history), old(store).events),
                old(content)@.message_tombstones,
                old(settings)@,
                limit,
            ),
            old(store)@,
            old(content)@,
            old(settings)@,
            vault(*final(history), final(store).events),
            final(store)@,
            final(content)@,
            final(settings)@,
            r,
        ),
{
    match work {
        Work::Drain { limit } => {
            let (report, stored) = drain(history, store, content, settings, limit);
            if !stored {
                return Ok(report);
            }
            let ghost mid = store@;
            let applied = events::run(
                store,
                registry,
                DrainUntilIdle { batch_size: DEFAULT_READY_BATCH },
            );
            assert(ready_applied(registry, mid, store@, applied));
            match applied {
                Ok(_) => Ok(report),
                Err(e) => Err(prefixed("dispatch chop: ", e)),
            }
        },
    }
}

// ---------------------------------------------------------------------------
// Laws
// ---------------------------------------------------------------------------

/// The floor of a frontier never goes back.
pub proof fn law_floors_only_advance(
    d: Dispatching,
    targets: Seq<FloorTarget>,
    limit: nat,
    n: int,
    f: Frontier,
)
    ensures
        last_floor(d.floors, f) <= last_floor(
            dispatched_upto(d, targets, limit, n).floors,
            f,
        ),
    decreases n,
{
    if n > 0 {
        law_floors_only_advance(d, targets, limit, n - 1, f);
        let p = dispatched_upto(d, targets, limit, n - 1);
        if p.tally.chops < limit {
            let t = targets[n - 1];
            if floor_key(t.frontier) == floor_key(f) {
                assert(last_floor(p.floors, f) == last_floor(p.floors, t.frontier));
            }
        }
    }
}

/// After a run that was not cut short, every frontier has at least the floor that it is to have.
proof fn lemma_floors_reached(d: Dispatching, targets: Seq<FloorTarget>, limit: nat, n: int, i: int)
    requires
        0 <= i < n <= targets.len(),
        dispatched_upto(d, targets, limit, n).tally.chops < limit,
    ensures
        targets[i].floor_minute <= last_floor(
            dispatched_upto(d, targets, limit, n).floors,
            targets[i].frontier,
        ),
    decreases n,
{
    let p = dispatched_upto(d, targets, limit, n - 1);
    assert(p.tally.chops < limit);
    let after = dispatch_step(p, targets[n - 1]);
    if i < n - 1 {
        lemma_floors_reached(d, targets, limit, n - 1, i);
        law_floors_only_advance(p, seq![targets[n - 1]], limit, 1, targets[i].frontier);
        assert(dispatched_upto(p, seq![targets[n - 1]], limit, 0) == p);
        assert(dispatched_upto(p, seq![targets[n - 1]], limit, 1) == after);
    }
}

/// A run that was not cut short is followed by a run that does nothing: no frontier is chopped
/// again, and history, tombstones and floors stay.
pub proof fn law_dispatch_is_idempotent(
    d: Dispatching,
    targets: Seq<FloorTarget>,
    limit: nat,
    again: nat,
    n: int,
)
    requires
        0 <= n <= targets.len(),
        dispatched_upto(d, targets, limit, targets.len() as int).tally.chops < limit,
    ensures
        ({
            let p = dispatched_upto(d, targets, limit, targets.len() as int);
            let q = dispatched_upto(
                dispatch_start(p.vault, p.messages, p.floors),
                targets,
                again,
                n,
            );
            &&& q.vault == p.vault
            &&& q.messages == p.messages
            &&& q.floors == p.floors
            &&& q.tally.chops == 0
            &&& q.tally.subtrees == 0
            &&& q.tally.boundary == 0
        }),
    decreases n,
{
    if n > 0 {
        law_dispatch_is_idempotent(d, targets, limit, again, n - 1);
        lemma_floors_reached(d, targets, limit, targets.len() as int, n - 1);
    }
}

/// Nothing happens while the clock is not set.
pub proof fn law_no_clock_no_chop(
    v: Vault,
    messages: Map<Seq<u8>, MessageTombstoneRow>,
    s: SettingsState,
    limit: usize,
)
    requires
        s.logical_time is None,
    ensures
        dispatched(v, messages, s, limit) == dispatch_start(v, messages, s.floors),
{
}

/// A dispatch raises floors and lowers none; the frontiers that it went through have the floors
/// that they are to have.
proof fn lemma_dispatch_raises(d: Dispatching, targets: Seq<FloorTarget>, limit: nat, n: int)
    requires
        0 <= n <= targets.len(),
        d.tally.chops + n <= limit,
    ensures
        ({
            let e = dispatched_upto(d, targets, limit, n);
            &&& e.tally.chops <= d.tally.chops + n
            &&& forall|f: Frontier| #[trigger]
                last_floor(e.floors, f) >= last_floor(d.floors, f)
            &&& forall|i: int|
                0 <= i < n ==> (#[trigger] targets[i]).floor_minute <= last_floor(
                    e.floors,
                    targets[i].frontier,
                )
        }),
    decreases n,
{
    if n > 0 {
        lemma_dispatch_raises(d, targets, limit, n - 1);
        let p = dispatched_upto(d, targets, limit, n - 1);
        let e = dispatched_upto(d, targets, limit, n);
        let target = targets[n - 1];
        assert(e == dispatch_step(p, target));
        assert forall|f: Frontier| #[trigger] last_floor(e.floors, f) >= last_floor(
            p.floors,
            f,
        ) by {
            if floor_key(f) == floor_key(target.frontier) {
                assert(last_floor(p.floors, f) == last_floor(p.floors, target.frontier));
            }
        }
        assert forall|i: int| 0 <= i < n implies (#[trigger] targets[i]).floor_minute <= last_floor(
            e.floors,
            targets[i].frontier,
        ) by {
            if i < n - 1 {
                assert(targets[i].floor_minute <= last_floor(p.floors, targets[i].frontier));
            }
        }
    }
}

/// A dispatch over frontiers that have their floors only looks at them.
proof fn lemma_dispatch_idle(d: Dispatching, targets: Seq<FloorTarget>, limit: nat, n: int)
    requires
        0 <= n <= targets.len(),
        forall|i: int|
            0 <= i < targets.len() ==> (#[trigger] targets[i]).floor_minute <= last_floor(
                d.floors,
                targets[i].frontier,
            ),
    ensures
        ({
            let e = dispatched_upto(d, targets, limit, n);
            &&& e.vault == d.vault
            &&& e.messages == d.messages
            &&& e.floors == d.floors
            &&& e.tally.chops == d.tally.chops
        }),
    decreases n,
{
    if n > 0 {
        lemma_dispatch_idle(d, targets, limit, n - 1);
        assert(targets[n - 1].floor_minute <= last_floor(d.floors, targets[n - 1].frontier));
    }
}

/// A dispatch never lowers the floor of a frontier.
pub proof fn law_floors_never_sink(
    v: Vault,
    messages: Map<Seq<u8>, MessageTombstoneRow>,
    s: SettingsState,
    limit: usize,
    f: Frontier,
)
    ensures
        last_floor(dispatched(v, messages, s, limit).floors, f) >= last_floor(s.floors, f),
{
    if let Some(now_ms) = s.logical_time {
        let targets = floor_targets(s, now_ms);
        law_floors_only_advance(
            dispatch_start(v, messages, s.floors),
            targets,
            limit as nat,
            targets.len() as int,
            f,
        );
    }
}

/// The floor of a frontier once the first `n` targets are reached.
pub open spec fn raised_floor(
    floors: Map<Seq<u8>, u64>,
    targets: Seq<FloorTarget>,
    f: Frontier,
    n: int,
) -> u64
    decreases n,
{
    if n <= 0 {
        last_floor(floors, f)
    } else {
        let before = raised_floor(floors, targets, f, n - 1);
        let t = targets[n - 1];
        if floor_key(t.frontier) == floor_key(f) && t.floor_minute > before {
            t.floor_minute
        } else {
            before
        }
    }
}

/// How many of the first `n` targets lie above the floor that their frontier has by then.
pub open spec fn advancing(floors: Map<Seq<u8>, u64>, targets: Seq<FloorTarget>, n: int) -> nat
    decreases n,
{
    if n <= 0 {
        0
    } else {
        let before = advancing(floors, targets, n - 1);
        let t = targets[n - 1];
        if t.floor_minute > raised_floor(floors, targets, t.frontier, n - 1) {
            before + 1
        } else {
            before
        }
    }
}

proof fn lemma_dispatch_exact(d: Dispatching, targets: Seq<FloorTarget>, limit: nat, n: int)
    requires
        0 <= n <= targets.len(),
        d.tally.chops + n <= limit,
    ensures
        ({
            let e = dispatched_upto(d, targets, limit, n);
            &&& e.tally.chops == d.tally.chops + advancing(d.floors, targets, n)
            &&& e.tally.visited == d.tally.visited + n
            &&& advancing(d.floors, targets, n) <= n
            &&& forall|f: Frontier| #[trigger]
                last_floor(e.floors, f) == raised_floor(d.floors, targets, f, n)
        }),
    decreases n,
{
    if n > 0 {
        lemma_dispatch_exact(d, targets, limit, n - 1);
        let p = dispatched_upto(d, targets, limit, n - 1);
        let e = dispatched_upto(d, targets, limit, n);
        let t = targets[n - 1];
        assert(e == dispatch_step(p, t));
        assert(last_floor(p.floors, t.frontier) == raised_floor(
            d.floors,
            targets,
            t.frontier,
            n - 1,
        ));
        assert forall|f: Frontier| #[trigger] last_floor(e.floors, f) == raised_floor(
            d.floors,
            targets,
            f,
            n,
        ) by {
            assert(last_floor(p.floors, f) == raised_floor(d.floors, targets, f, n - 1));
            if floor_key(t.frontier) == floor_key(f) {
                assert(last_floor(p.floors, f) == last_floor(p.floors, t.frontier));
            }
        }
    }
}

proof fn lemma_target_floor(
    s: SettingsState,
    workspaces: Seq<WorkspaceRow>,
    now_ms: u64,
    n: int,
    i: int,
)
    requires
        0 <= n <= workspaces.len(),
        0 <= i < targets_upto(s, workspaces, now_ms, n).len(),
    ensures
        ({
            let t = targets_upto(s, workspaces, now_ms, n)[i];
            t.floor_minute == effective_floor(s, t.frontier.workspace_id, now_ms)
        }),
    decreases n,
{
    if n > 0 && i < targets_upto(s, workspaces, now_ms, n - 1).len() {
        lemma_target_floor(s, workspaces, now_ms, n - 1, i);
    }
}

proof fn lemma_raised_floor(
    floors: Map<Seq<u8>, u64>,
    targets: Seq<FloorTarget>,
    f: Frontier,
    floor: u64,
    n: int,
)
    requires
        0 <= n <= targets.len(),
        forall|i: int|
            0 <= i < n && floor_key((#[trigger] targets[i]).frontier) == floor_key(f)
                ==> targets[i].floor_minute == floor,
    ensures
        ({
            let old_floor = last_floor(floors, f);
            raised_floor(floors, targets, f, n) == if old_floor < floor && exists|i: int|
                0 <= i < n && floor_key((#[trigger] targets[i]).frontier) == floor_key(f) {
                floor
            } else {
                old_floor
            }
        }),
    decreases n,
{
    if n > 0 {
        lemma_raised_floor(floors, targets, f, floor, n - 1);
    }
}

/// A dispatch that is not cut short looks at every frontier, leaves each at the later one of the
/// floor that it had and the floor that it is to have, and chops as many as lay below.
pub proof fn law_dispatch_reaches_every_floor(
    v: Vault,
    messages: Map<Seq<u8>, MessageTombstoneRow>,
    s: SettingsState,
    limit: usize,
    now_ms: u64,
    i: int,
)
    requires
        s.logical_time == Some(now_ms),
        floor_targets(s, now_ms).len() <= limit,
        0 <= i < floor_targets(s, now_ms).len(),
    ensures
        ({
            let targets = floor_targets(s, now_ms);
            let f = targets[i].frontier;
            let e = dispatched(v, messages, s, limit);
            let (had, due) = (
                last_floor(s.floors, f),
                effective_floor(s, f.workspace_id, now_ms),
            );
            &&& targets[i].floor_minute == due
            &&& last_floor(e.floors, f) == if had < due {
                due
            } else {
                had
            }
            &&& e.tally.visited == targets.len()
            &&& e.tally.chops == advancing(s.floors, targets, targets.len() as int)
        }),
{
    let targets = floor_targets(s, now_ms);
    let workspaces = all_workspaces(s);
    let n = targets.len() as int;
    let f = targets[i].frontier;
    let due = effective_floor(s, f.workspace_id, now_ms);
    lemma_dispatch_exact(dispatch_start(v, messages, s.floors), targets, limit as nat, n);
    lemma_target_floor(s, workspaces, now_ms, workspaces.len() as int, i);
    assert forall|j: int|
        0 <= j < n && floor_key((#[trigger] targets[j]).frontier) == floor_key(
            f,
        ) implies targets[j].floor_minute == due by {
        lemma_target_floor(s, workspaces, now_ms, workspaces.len() as int, j);
        lemma_frontier_key_injective(targets[j].frontier, f);
    }
    lemma_raised_floor(s.floors, targets, f, due, n);
    assert(floor_key(targets[i].frontier) == floor_key(f));
}

/// A second dispatch under the same clock, after one that was not cut short, chops nothing: it
/// writes no tombstone and changes no row.
pub proof fn law_second_dispatch_chops_nothing(
    v: Vault,
    messages: Map<Seq<u8>, MessageTombstoneRow>,
    s: SettingsState,
    limit: usize,
)
    requires
        s.logical_time matches Some(now_ms) ==> floor_targets(s, now_ms).len() <= limit,
    ensures
        ({
            let first = dispatched(v, messages, s, limit);
            let t = SettingsState { floors: first.floors, ..s };
            let second = dispatched(first.vault, first.messages, t, limit);
            &&& second.tally.chops == 0
            &&& second.vault == first.vault
            &&& second.messages == first.messages
            &&& second.floors == first.floors
        }),
{
    let first = dispatched(v, messages, s, limit);
    let t = SettingsState { floors: first.floors, ..s };
    if let Some(now_ms) = s.logical_time {
        let targets = floor_targets(s, now_ms);
        lemma_targets_same(s, t, all_workspaces(s), now_ms, all_workspaces(s).len() as int);
        assert(floor_targets(t, now_ms) == targets);
        lemma_dispatch_raises(
            dispatch_start(v, messages, s.floors),
            targets,
            limit as nat,
            targets.len() as int,
        );
        lemma_dispatch_idle(
            dispatch_start(first.vault, first.messages, t.floors),
            targets,
            limit as nat,
            targets.len() as int,
        );
    }
}

/// The floors that frontiers are to have do not depend on those that they have.
proof fn lemma_targets_same(
    s: SettingsState,
    t: SettingsState,
    workspaces: Seq<WorkspaceRow>,
    now_ms: u64,
    n: int,
)
    requires
        t == (SettingsState { floors: t.floors, ..s }),
    ensures
        targets_upto(s, workspaces, now_ms, n) == targets_upto(t, workspaces, now_ms, n),
    decreases n,
{
    if n > 0 {
        lemma_targets_same(s, t, workspaces, now_ms, n - 1);
        let id = workspaces[n - 1].workspace_id;
        assert(effective_floor(s, id, now_ms) == effective_floor(t, id, now_ms));
        assert(workspace_targets(s, id, now_ms) =~= workspace_targets(t, id, now_ms));
    }
}

/// Two dispatches stand at the same history, tombstones and floors, and chopped as often.
pub open spec fn agree(a: Dispatching, b: Dispatching) -> bool {
    &&& a.vault.history == b.vault.history
    &&& a.messages == b.messages
    &&& a.floors == b.floors
    &&& a.tally.chops == b.tally.chops
}

proof fn lemma_dispatch_agrees(
    a: Dispatching,
    b: Dispatching,
    targets: Seq<FloorTarget>,
    limit: nat,
    n: int,
)
    requires
        agree(a, b),
    ensures
        agree(dispatched_upto(a, targets, limit, n), dispatched_upto(b, targets, limit, n)),
    decreases n,
{
    if n > 0 {
        lemma_dispatch_agrees(a, b, targets, limit, n - 1);
        let p = dispatched_upto(a, targets, limit, n - 1);
        let q = dispatched_upto(b, targets, limit, n - 1);
        let target = targets[n - 1];
        law_chop_is_deterministic(
            p.vault,
            q.vault,
            p.messages,
            target.frontier,
            target.floor_minute,
        );
    }
}

/// Peers that keep the same rows, know the same settings and have the same clock end up with the
/// same rows, the same tombstones and the same floors, whatever events they store.
pub proof fn law_peers_dispatch_alike(
    a: Vault,
    b: Vault,
    messages: Map<Seq<u8>, MessageTombstoneRow>,
    s: SettingsState,
    limit: usize,
)
    requires
        a.history == b.history,
    ensures
        agree(dispatched(a, messages, s, limit), dispatched(b, messages, s, limit)),
{
    if let Some(now_ms) = s.logical_time {
        let targets = floor_targets(s, now_ms);
        lemma_dispatch_agrees(
            dispatch_start(a, messages, s.floors),
            dispatch_start(b, messages, s.floors),
            targets,
            limit as nat,
            targets.len() as int,
        );
    }
}

/// The floor that a frontier is to have, in plain minutes: the later one of what the setting in
/// force names and of the clock's minute less the cover horizon.
pub proof fn law_floor_is_the_later_one(s: SettingsState, workspace_id: EventId, now_ms: u64)
    requires
        s.settings.dom().finite(),
    ensures
        ({
            let floor = effective_floor(s, workspace_id, now_ms) as int;
            let horizon = now_ms as int / 60_000 - 43_200;
            &&& floor >= horizon
            &&& floor >= 0
            &&& setting_in_force(s, workspace_id) matches Some(row) ==> floor
                >= row.expires_at_or_before_minute
            &&& floor == 0 || floor == horizon || (setting_in_force(s, workspace_id) matches Some(
                row,
            ) && floor == row.expires_at_or_before_minute)
            &&& forall|k: Seq<u8>| #[trigger]
                s.settings.contains_key(k) && has_prefix(k, workspace_id@) && (forall|j: Seq<u8>|
                    #[trigger]
                    s.settings.contains_key(j) && has_prefix(j, workspace_id@) && j != k
                        ==> s.settings[j].created_at_ms < s.settings[k].created_at_ms) ==> floor
                    >= s.settings[k].expires_at_or_before_minute
        }),
{
    law_setting_in_force_is_the_latest(s, workspace_id);
    assert forall|k: Seq<u8>| #[trigger]
        s.settings.contains_key(k) && has_prefix(k, workspace_id@) && (forall|j: Seq<u8>|
            #[trigger]
            s.settings.contains_key(j) && has_prefix(j, workspace_id@) && j != k
                ==> s.settings[j].created_at_ms
                < s.settings[k].created_at_ms) implies effective_floor(s, workspace_id, now_ms)
        >= s.settings[k].expires_at_or_before_minute by {
        let best = setting_in_force(s, workspace_id)->Some_0;
        let j = choose|j: Seq<u8>| #[trigger]
            s.settings.contains_key(j) && has_prefix(j, workspace_id@) && s.settings[j] == best;
        if j != k {
            assert(s.settings[j].created_at_ms < s.settings[k].created_at_ms);
        }
    }
}

proof fn lemma_targets_hold(
    s: SettingsState,
    workspaces: Seq<WorkspaceRow>,
    now_ms: u64,
    n: int,
    w: int,
    f: EventId,
)
    requires
        0 <= w < n <= workspaces.len(),
        frontiers_of(s, workspaces[w].workspace_id).contains(f),
    ensures
        exists|i: int|
            0 <= i < targets_upto(s, workspaces, now_ms, n).len() && (#[trigger] targets_upto(
                s,
                workspaces,
                now_ms,
                n,
            )[i]).frontier == (Frontier {
                workspace_id: workspaces[w].workspace_id,
                removal_frontier_id: f,
            }),
    decreases n,
{
    let all = targets_upto(s, workspaces, now_ms, n);
    let before = targets_upto(s, workspaces, now_ms, n - 1);
    let place = Frontier { workspace_id: workspaces[w].workspace_id, removal_frontier_id: f };
    if w < n - 1 {
        lemma_targets_hold(s, workspaces, now_ms, n - 1, w, f);
        let i = choose|i: int| 0 <= i < before.len() && (#[trigger] before[i]).frontier == place;
        assert(all[i].frontier == place);
    } else {
        let ids = frontiers_of(s, workspaces[w].workspace_id);
        let i = choose|i: int| 0 <= i < ids.len() && ids[i] == f;
        assert(all[before.len() + i].frontier == place);
    }
}

/// No frontier is forgotten. After a dispatch that is not cut short every removal frontier of
/// every known workspace has a floor that lies no further back than the cover horizon and than
/// the setting in force, and not before the floor that it had.
pub proof fn law_every_frontier_gets_its_floor(
    v: Vault,
    messages: Map<Seq<u8>, MessageTombstoneRow>,
    s: SettingsState,
    limit: usize,
    now_ms: u64,
    workspace: Seq<u8>,
    f: Frontier,
)
    requires
        s.logical_time == Some(now_ms),
        countable(s.workspaces.dom()),
        s.frontiers.dom().finite(),
        valid_frontiers(s.frontiers),
        floor_targets(s, now_ms).len() <= limit,
        s.workspaces.contains_key(workspace),
        s.workspaces[workspace].workspace_id == f.workspace_id,
        s.frontiers.contains_key(f.workspace_id@ + f.removal_frontier_id@),
    ensures
        ({
            let after = dispatched(v, messages, s, limit);
            let floor = last_floor(after.floors, f) as int;
            &&& floor >= now_ms as int / 60_000 - 43_200
            &&& floor >= last_floor(s.floors, f)
            &&& setting_in_force(s, f.workspace_id) matches Some(row) ==> floor
                >= row.expires_at_or_before_minute
        }),
{
    let workspaces = all_workspaces(s);
    let k = f.workspace_id@ + f.removal_frontier_id@;
    let keys = with_prefix(s.frontiers.dom(), f.workspace_id@);
    assert(k.take(32) =~= f.workspace_id@);
    assert(k.skip(32) =~= f.removal_frontier_id@);
    assert(keys.contains(k));
    lemma_listing_exists(keys);
    let j = choose|j: int| 0 <= j < listing(keys).len() && listing(keys)[j] == k;
    lemma_id_with(f.removal_frontier_id);
    assert(frontiers_of(s, f.workspace_id)[j] == f.removal_frontier_id);
    lemma_values_under(s.workspaces, Seq::empty());
    assert(workspace.take(0) =~= Seq::<u8>::empty());
    assert(workspaces.contains(s.workspaces[workspace]));
    let w = choose|w: int| 0 <= w < workspaces.len() && workspaces[w] == s.workspaces[workspace];
    lemma_targets_hold(
        s,
        workspaces,
        now_ms,
        workspaces.len() as int,
        w,
        f.removal_frontier_id,
    );
    let targets = floor_targets(s, now_ms);
    let i = choose|i: int| 0 <= i < targets.len() && (#[trigger] targets[i]).frontier == f;
    law_dispatch_reaches_every_floor(v, messages, s, limit, now_ms, i);
}

/// Not more frontiers are chopped than the limit allows.
pub proof fn law_dispatch_respects_its_limit(
    v: Vault,
    messages: Map<Seq<u8>, MessageTombstoneRow>,
    s: SettingsState,
    limit: usize,
)
    ensures
        dispatched(v, messages, s, limit).tally.chops <= limit,
{
    if let Some(now_ms) = s.logical_time {
        let targets = floor_targets(s, now_ms);
        lemma_dispatch_limit(
            dispatch_start(v, messages, s.floors),
            targets,
            limit as nat,
            targets.len() as int,
        );
    }
}

proof fn lemma_dispatch_limit(d: Dispatching, targets: Seq<FloorTarget>, limit: nat, n: int)
    requires
        d.tally.chops <= limit,
    ensures
        dispatched_upto(d, targets, limit, n).tally.chops <= limit,
    decreases n,
{
    if n > 0 {
        lemma_dispatch_limit(d, targets, limit, n - 1);
    }
}

/// A frontier keeps nothing below a minute: it has no root, and no kept range holds an earlier
/// minute.
pub open spec fn nothing_kept_below(h: HistoryState, f: Frontier, floor: u64) -> bool {
    &&& !h.roots.contains_key(f.workspace_id@ + f.removal_frontier_id@)
    &&& forall|m: u64| m < floor ==> !#[trigger] minute_covered(h, f, m)
}

/// A dispatch that raises the floor of a frontier has chopped it there: nothing is kept below. It
/// leaves no target behind, and frontiers whose floor stays keep what they had.
pub proof fn law_raised_floor_is_chopped(
    d: Dispatching,
    targets: Seq<FloorTarget>,
    limit: nat,
    n: int,
)
    requires
        0 <= n <= targets.len(),
        d.tally.chops + n <= limit,
        valid_history(d.vault.history),
    ensures
        ({
            let e = dispatched_upto(d, targets, limit, n);
            &&& valid_history(e.vault.history)
            &&& e.tally.chops <= d.tally.chops + n
            &&& forall|i: int|
                0 <= i < n ==> (#[trigger] targets[i]).floor_minute <= last_floor(
                    e.floors,
                    targets[i].frontier,
                )
            &&& forall|f: Frontier| #[trigger]
                last_floor(e.floors, f) >= last_floor(d.floors, f)
            &&& forall|f: Frontier| #[trigger]
                last_floor(e.floors, f) > last_floor(d.floors, f) ==> nothing_kept_below(
                    e.vault.history,
                    f,
                    last_floor(e.floors, f),
                )
            &&& forall|f: Frontier| #[trigger]
                last_floor(e.floors, f) == last_floor(d.floors, f) ==> e.vault.history.has_root(f)
                    == d.vault.history.has_root(f) && forall|row: HistoryNodeRow| #[trigger]
                    e.vault.history.has_row(f, row) == d.vault.history.has_row(f, row)
        }),
    decreases n,
{
    if n > 0 {
        law_raised_floor_is_chopped(d, targets, limit, n - 1);
        let p = dispatched_upto(d, targets, limit, n - 1);
        let e = dispatched_upto(d, targets, limit, n);
        let t = targets[n - 1];
        assert(e == dispatch_step(p, t));
        if t.floor_minute > last_floor(p.floors, t.frontier) {
            law_chop_keeps_nothing_below_the_floor(
                p.vault,
                p.messages,
                t.frontier,
                t.floor_minute,
            );
            let (h, g) = (e.vault.history, p.vault.history);
            assert forall|f: Frontier| f != t.frontier implies #[trigger] last_floor(e.floors, f)
                == last_floor(p.floors, f) by {
                lemma_frontier_key_injective(f, t.frontier);
            }
            assert(last_floor(e.floors, t.frontier) == t.floor_minute);
            assert forall|i: int| 0 <= i < n implies (#[trigger] targets[i]).floor_minute
                <= last_floor(e.floors, targets[i].frontier) by {
                if i < n - 1 {
                    assert(targets[i].floor_minute <= last_floor(p.floors, targets[i].frontier));
                }
            }
            assert forall|f: Frontier| #[trigger]
                last_floor(e.floors, f) >= last_floor(d.floors, f) by {
                assert(last_floor(p.floors, f) >= last_floor(d.floors, f));
            }
            assert forall|f: Frontier| #[trigger]
                last_floor(e.floors, f) > last_floor(d.floors, f) implies nothing_kept_below(
                h,
                f,
                last_floor(e.floors, f),
            ) by {
                if f != t.frontier {
                    assert(last_floor(p.floors, f) > last_floor(d.floors, f));
                    assert(nothing_kept_below(g, f, last_floor(p.floors, f)));
                    assert(h.has_root(f) == g.has_root(f));
                    assert forall|m: u64| m < last_floor(e.floors, f) implies !#[trigger]
                        minute_covered(h, f, m) by {
                        assert(!minute_covered(g, f, m));
                        assert forall|row: HistoryNodeRow| #[trigger]
                            h.has_row(f, row) implies g.has_row(f, row) by {}
                    }
                } else {
                    assert(!h.has_root(f));
                }
            }
            assert forall|f: Frontier| #[trigger]
                last_floor(e.floors, f) == last_floor(d.floors, f) implies h.has_root(f)
                == d.vault.history.has_root(f) && forall|row: HistoryNodeRow| #[trigger]
                h.has_row(f, row) == d.vault.history.has_row(f, row) by {
                assert(last_floor(p.floors, f) >= last_floor(d.floors, f));
                assert(f != t.frontier);
                assert(last_floor(p.floors, f) == last_floor(d.floors, f));
                assert(h.has_root(f) == g.has_root(f));
                assert forall|row: HistoryNodeRow| #[trigger] h.has_row(f, row)
                    == d.vault.history.has_row(f, row) by {
                    assert(h.has_row(f, row) == g.has_row(f, row));
                }
            }
        } else {
            assert forall|i: int| 0 <= i < n implies (#[trigger] targets[i]).floor_minute
                <= last_floor(e.floors, targets[i].frontier) by {
                if i < n - 1 {
                    assert(targets[i].floor_minute <= last_floor(p.floors, targets[i].frontier));
                }
            }
        }
    }
}

} // verus!
