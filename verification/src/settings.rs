//! Workspaces, their removal frontiers and disappearing-message settings, the floors that were
//! chopped to, and the logical clock.
use vstd::prelude::*;
use crate::bytes::{
    has_prefix, id_at, id_bytes, id_lt, id_pair, id_with, lemma_id_with, lemma_lex_irreflexive,
    lemma_lex_transitive, lex_lt, EventId,
};
use crate::event_store::Mark;
use crate::keys::{lemma_values_under, list_under, values_under, PlainRow};
use crate::table::{is_listing, key_views, lemma_table_finite, listing, with_prefix, Table};

verus! {

/// How many minutes of cover are kept behind the clock, whatever the settings say.
pub const COVER_HORIZON_MINUTES: u64 = 43_200;

/// A workspace. Messages of one with time to live zero do not disappear.
#[derive(Debug, Clone, Copy, PartialEq, Eq)]
pub struct WorkspaceRow {
    pub workspace_id: EventId,
    pub disappearing_ttl_minutes: u32,
}

impl View for WorkspaceRow {
    type V = WorkspaceRow;

    open spec fn view(&self) -> WorkspaceRow {
        *self
    }
}

impl PlainRow for WorkspaceRow {
    proof fn lemma_plain(self) {
    }
}

/// A disappearing-message setting: what was written at or before a minute is to go.
#[derive(Debug, Clone, Copy, PartialEq, Eq)]
pub struct SettingRow {
    pub workspace_id: EventId,
    pub setting_event_id: EventId,
    pub ttl_minutes: u32,
    pub created_at_ms: u64,
    pub expires_at_or_before_minute: u64,
}

impl View for SettingRow {
    type V = SettingRow;

    open spec fn view(&self) -> SettingRow {
        *self
    }
}

impl PlainRow for SettingRow {
    proof fn lemma_plain(self) {
    }
}

/// A floor.
#[derive(Debug, Clone, Copy, PartialEq, Eq)]
pub struct FloorRow {
    pub minute: u64,
}

impl View for FloorRow {
    type V = u64;

    open spec fn view(&self) -> u64 {
        self.minute
    }
}

/// The rows of workspaces and settings, and the clock.
#[verifier::ext_equal]
pub struct SettingsState {
    pub workspaces: Map<Seq<u8>, WorkspaceRow>,
    pub frontiers: Map<Seq<u8>, ()>,
    pub settings: Map<Seq<u8>, SettingRow>,
    pub floors: Map<Seq<u8>, u64>,
    pub logical_time: Option<u64>,
}

/// The stored rows of workspaces and settings, and the clock in milliseconds, once it is set.
pub struct SettingsStore {
    pub workspaces: Table<WorkspaceRow>,
    pub frontiers: Table<Mark>,
    pub settings: Table<SettingRow>,
    pub floors: Table<FloorRow>,
    pub logical_time: Option<u64>,
}

impl View for SettingsStore {
    type V = SettingsState;

    open spec fn view(&self) -> SettingsState {
        SettingsState {
            workspaces: self.workspaces@,
            frontiers: self.frontiers@,
            settings: self.settings@,
            floors: self.floors@,
            logical_time: self.logical_time,
        }
    }
}

/// The keys of frontiers are two ids.
pub open spec fn valid_frontiers(m: Map<Seq<u8>, ()>) -> bool {
    forall|k: Seq<u8>| #[trigger] m.contains_key(k) ==> k.len() == 64
}

impl SettingsStore {
    pub open spec fn wf(&self) -> bool {
        &&& self.workspaces.wf()
        &&& self.frontiers.wf()
        &&& self.settings.wf()
        &&& self.floors.wf()
        &&& valid_frontiers(self.frontiers@)
    }

    /// A store without rows and with the clock unset.
    pub fn new() -> (s: SettingsStore)
        ensures
            s.wf(),
            s@ == (SettingsState {
                workspaces: Map::empty(),
                frontiers: Map::empty(),
                settings: Map::empty(),
                floors: Map::empty(),
                logical_time: None,
            }),
    {
        SettingsStore {
            workspaces: Table::new(),
            frontiers: Table::new(),
            settings: Table::new(),
            floors: Table::new(),
            logical_time: None,
        }
    }

    /// Keep a workspace.
    pub fn insert_workspace(&mut self, row: WorkspaceRow) -> (added: bool)
        requires
            old(self).wf(),
        ensures
            final(self).wf(),
            added == !old(self)@.workspaces.contains_key(row.workspace_id@),
            final(self)@ == (SettingsState {
                workspaces: if added {
                    old(self)@.workspaces.insert(row.workspace_id@, row)
                } else {
                    old(self)@.workspaces
                },
                ..old(self)@
            }),
    {
        self.workspaces.insert(id_bytes(&row.workspace_id), row)
    }

    /// Keep a removal frontier of a workspace.
    pub fn insert_frontier(&mut self, workspace_id: &EventId, removal_frontier_id: &EventId)
        requires
            old(self).wf(),
        ensures
            final(self).wf(),
            final(self)@ == (SettingsState {
                frontiers: old(self)@.frontiers.insert(
                    workspace_id@ + removal_frontier_id@,
                    (),
                ),
                ..old(self)@
            }),
    {
        let key = id_pair(workspace_id, removal_frontier_id);
        let ghost k0 = key@;
        let _ = self.frontiers.insert(key, Mark);
        proof {
            assert(self@.frontiers =~= old(self)@.frontiers.insert(k0, ()));
            assert forall|k: Seq<u8>| #[trigger] self@.frontiers.contains_key(k) implies k.len()
                == 64 by {
                if k != k0 {
                    assert(old(self)@.frontiers.contains_key(k));
                }
            }
        }
    }

    /// Keep a setting of a workspace.
    pub fn insert_setting(&mut self, row: SettingRow) -> (added: bool)
        requires
            old(self).wf(),
        ensures
            final(self).wf(),
            ({
                let key = row.workspace_id@ + row.setting_event_id@;
                &&& added == !old(self)@.settings.contains_key(key)
                &&& final(self)@ == (SettingsState {
                    settings: if added {
                        old(self)@.settings.insert(key, row)
                    } else {
                        old(self)@.settings
                    },
                    ..old(self)@
                })
            }),
    {
        self.settings.insert(id_pair(&row.workspace_id, &row.setting_event_id), row)
    }

    /// Set the clock.
    pub fn set_logical_time(&mut self, now_ms: u64)
        requires
            old(self).wf(),
        ensures
            final(self).wf(),
            final(self)@ == (SettingsState { logical_time: Some(now_ms), ..old(self)@ }),
    {
        self.logical_time = Some(now_ms);
    }

    /// The floor that a frontier was last chopped to.
    pub fn last_chopped_floor(&self, workspace_id: &EventId, removal_frontier_id: &EventId) -> (r:
        Option<u64>)
        requires
            self.wf(),
        ensures
            r == chopped_floor(self@.floors, workspace_id@ + removal_frontier_id@),
    {
        match self.floors.get(id_pair(workspace_id, removal_frontier_id).as_slice()) {
            Some(row) => Some(row.minute),
            None => None,
        }
    }
}

/// The floor that a frontier was last chopped to.
pub open spec fn chopped_floor(floors: Map<Seq<u8>, u64>, key: Seq<u8>) -> Option<u64> {
    if floors.contains_key(key) {
        Some(floors[key])
    } else {
        None
    }
}

/// One setting is later than another: by time, and then by id.
pub open spec fn later_setting(a: SettingRow, b: SettingRow) -> bool {
    a.created_at_ms > b.created_at_ms || (a.created_at_ms == b.created_at_ms && lex_lt(
        b.setting_event_id@,
        a.setting_event_id@,
    ))
}

/// The latest of some settings.
pub open spec fn latest_setting(rows: Seq<SettingRow>) -> Option<SettingRow>
    decreases rows.len(),
{
    if rows.len() == 0 {
        None
    } else {
        match latest_setting(rows.drop_last()) {
            None => Some(rows.last()),
            Some(best) => if later_setting(rows.last(), best) {
                Some(rows.last())
            } else {
                Some(best)
            },
        }
    }
}

/// The setting that is in force in a workspace: the latest one.
pub open spec fn setting_in_force(s: SettingsState, workspace_id: EventId) -> Option<SettingRow> {
    latest_setting(values_under(s.settings, workspace_id@))
}

/// Find the setting that is in force in a workspace.
pub fn active_for_workspace(settings: &SettingsStore, workspace_id: &EventId) -> (r: Option<
    SettingRow,
>)
    requires
        settings.wf(),
    ensures
        r == setting_in_force(settings@, *workspace_id),
        r is Some <==> exists|k: Seq<u8>| #[trigger]
            settings@.settings.contains_key(k) && has_prefix(k, workspace_id@),
        r matches Some(best) ==> exists|k: Seq<u8>| #[trigger]
            settings@.settings.contains_key(k) && has_prefix(k, workspace_id@)
                && settings@.settings[k] == best,
        r matches Some(best) ==> forall|k: Seq<u8>| #[trigger]
            settings@.settings.contains_key(k) && has_prefix(k, workspace_id@)
                ==> settings@.settings[k].created_at_ms <= best.created_at_ms,
{
    let rows = list_under(&settings.settings, workspace_id.as_slice());
    let mut best: Option<SettingRow> = None;
    let mut i: usize = 0;
    assert(rows@.take(0) =~= Seq::empty());
    while i < rows.len()
        invariant
            i <= rows@.len(),
            best == latest_setting(rows@.take(i as int)),
        decreases rows.len() - i,
    {
        proof {
            assert(rows@.take(i + 1).drop_last() =~= rows@.take(i as int));
            assert(rows@.take(i + 1).last() == rows@[i as int]);
        }
        let row = rows[i];
        best = match best {
            None => Some(row),
            Some(b) => if row.created_at_ms > b.created_at_ms || (row.created_at_ms
                == b.created_at_ms && id_lt(&b.setting_event_id, &row.setting_event_id)) {
                Some(row)
            } else {
                Some(b)
            },
        };
        i = i + 1;
    }
    assert(rows@.take(i as int) =~= rows@);
    proof {
        lemma_table_finite(&settings.settings);
        law_setting_in_force_is_the_latest(settings@, *workspace_id);
    }
    best
}

proof fn lemma_latest_setting(rows: Seq<SettingRow>)
    ensures
        latest_setting(rows) is Some <==> rows.len() > 0,
        latest_setting(rows) matches Some(best) ==> rows.contains(best),
        latest_setting(rows) matches Some(best) ==> forall|i: int|
            0 <= i < rows.len() ==> (#[trigger] rows[i]).created_at_ms <= best.created_at_ms,
        latest_setting(rows) matches Some(best) ==> forall|i: int|
            0 <= i < rows.len() && (#[trigger] rows[i]).created_at_ms == best.created_at_ms
                ==> !lex_lt(best.setting_event_id@, rows[i].setting_event_id@),
    decreases rows.len(),
{
    if rows.len() > 0 {
        let (rest, last) = (rows.drop_last(), rows.last());
        lemma_latest_setting(rest);
        let best = latest_setting(rows)->Some_0;
        lemma_lex_irreflexive(last.setting_event_id@);
        if rest.len() > 0 {
            let before = latest_setting(rest)->Some_0;
            let at = choose|i: int| 0 <= i < rest.len() && rest[i] == before;
            assert(rows[at] == before);
        }
        assert(rows[rows.len() - 1] == last);
        assert forall|i: int| 0 <= i < rows.len() implies (#[trigger] rows[i]).created_at_ms
            <= best.created_at_ms && (rows[i].created_at_ms == best.created_at_ms ==> !lex_lt(
            best.setting_event_id@,
            rows[i].setting_event_id@,
        )) by {
            if i < rest.len() {
                assert(rest[i] == rows[i]);
                let before = latest_setting(rest)->Some_0;
                if later_setting(last, before) && lex_lt(last.setting_event_id@, rows[i].setting_event_id@) {
                    if last.created_at_ms == before.created_at_ms {
                        lemma_lex_transitive(
                            before.setting_event_id@,
                            last.setting_event_id@,
                            rows[i].setting_event_id@,
                        );
                    }
                }
            }
        }
    }
}

/// The setting in force is one of the workspace's settings, and none of them was created after
/// it; of those created at the same time it has the last id. There is one whenever the workspace
/// has a setting.
pub proof fn law_setting_in_force_is_the_latest(s: SettingsState, workspace_id: EventId)
    requires
        s.settings.dom().finite(),
    ensures
        setting_in_force(s, workspace_id) is Some <==> exists|k: Seq<u8>| #[trigger]
            s.settings.contains_key(k) && has_prefix(k, workspace_id@),
        setting_in_force(s, workspace_id) matches Some(best) ==> exists|k: Seq<u8>| #[trigger]
            s.settings.contains_key(k) && has_prefix(k, workspace_id@) && s.settings[k] == best,
        setting_in_force(s, workspace_id) matches Some(best) ==> forall|k: Seq<u8>| #[trigger]
            s.settings.contains_key(k) && has_prefix(k, workspace_id@)
                ==> s.settings[k].created_at_ms <= best.created_at_ms && (
            s.settings[k].created_at_ms == best.created_at_ms ==> !lex_lt(
                best.setting_event_id@,
                s.settings[k].setting_event_id@,
            )),
{
    let rows = values_under(s.settings, workspace_id@);
    lemma_values_under(s.settings, workspace_id@);
    lemma_latest_setting(rows);
    if rows.len() > 0 {
        assert(rows.contains(rows[0]));
    }
    assert forall|k: Seq<u8>| #[trigger]
        s.settings.contains_key(k) && has_prefix(k, workspace_id@) implies rows.len() > 0 && (
    setting_in_force(s, workspace_id) matches Some(best) && s.settings[k].created_at_ms
        <= best.created_at_ms && (s.settings[k].created_at_ms == best.created_at_ms ==> !lex_lt(
        best.setting_event_id@,
        s.settings[k].setting_event_id@,
    ))) by {
        assert(rows.contains(s.settings[k]));
        let i = choose|i: int| 0 <= i < rows.len() && rows[i] == s.settings[k];
        assert(rows[i].created_at_ms <= (latest_setting(rows)->Some_0).created_at_ms);
    }
}

/// The floor of the setting that is in force, or zero.
pub open spec fn setting_floor(s: SettingsState, workspace_id: EventId) -> u64 {
    match setting_in_force(s, workspace_id) {
        Some(row) => row.expires_at_or_before_minute,
        None => 0,
    }
}

/// The removal frontiers of a workspace, in the order of their ids.
pub open spec fn frontiers_of(s: SettingsState, workspace_id: EventId) -> Seq<EventId> {
    listing(with_prefix(s.frontiers.dom(), workspace_id@)).map_values(
        |k: Seq<u8>| id_with(k.skip(32)),
    )
}

/// List the removal frontiers of a workspace, in the order of their ids.
pub fn list_frontiers(settings: &SettingsStore, workspace_id: &EventId) -> (r: Vec<EventId>)
    requires
        settings.wf(),
    ensures
        r@ == frontiers_of(settings@, *workspace_id),
{
    let limit: usize = usize::MAX;
    let keys = settings.frontiers.keys_with_prefix(workspace_id.as_slice(), limit);
    let ghost dom = with_prefix(settings@.frontiers.dom(), workspace_id@);
    let ghost all = listing(dom);
    let ghost name = |k: Seq<u8>| id_with(k.skip(32));
    let mut out: Vec<EventId> = Vec::new();
    let mut i: usize = 0;
    assert(all == key_views(keys@));
    while i < keys.len()
        invariant
            settings.wf(),
            i <= keys@.len(),
            dom == with_prefix(settings@.frontiers.dom(), workspace_id@),
            all == listing(dom),
            is_listing(all, dom),
            all == key_views(keys@),
            name == (|k: Seq<u8>| id_with(k.skip(32))),
            out@ == all.take(i as int).map_values(name),
        decreases keys.len() - i,
    {
        proof {
            assert(all[i as int] == keys@[i as int]@);
            assert(all.contains(all[i as int]));
            assert(dom.contains(all[i as int]));
            assert(settings@.frontiers.contains_key(all[i as int]));
        }
        let id = id_at(keys[i].as_slice(), 32);
        out.push(id);
        proof {
            assert(id@ =~= all[i as int].skip(32));
            lemma_id_with(id);
            assert(all.take(i + 1) =~= all.take(i as int).push(all[i as int]));
            assert(out@ =~= all.take(i + 1).map_values(name));
        }
        i = i + 1;
    }
    assert(all.take(i as int) =~= all);
    out
}

/// The workspaces, in the order of their ids.
pub open spec fn all_workspaces(s: SettingsState) -> Seq<WorkspaceRow> {
    values_under(s.workspaces, Seq::empty())
}

/// List the workspaces, in the order of their ids.
pub fn list_workspaces(settings: &SettingsStore) -> (r: Vec<WorkspaceRow>)
    requires
        settings.wf(),
    ensures
        r@ == all_workspaces(settings@),
{
    let empty: Vec<u8> = Vec::new();
    assert(empty@ =~= Seq::<u8>::empty());
    list_under(&settings.workspaces, empty.as_slice())
}

} // verus!
