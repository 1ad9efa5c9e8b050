//! The workers of a daemon turn, in the order in which they run.
use vstd::prelude::*;
use crate::events::EventRegistry;
use crate::peer_supervisor::PeerCursor;
use crate::store::Store;
use crate::sync_index::SyncIndex;

verus! {

/// What a daemon gives its workers.
pub trait DaemonWorkerContext: EventRegistry {
    fn store(&self) -> &Store;

    fn sync_index(&self) -> &SyncIndex;

    fn peer_supervisor_cursor(&self) -> &PeerCursor;
}

/// Which work a worker does.
#[derive(Debug, Clone, Copy, PartialEq, Eq, Structural)]
pub enum DaemonStep {
    /// Accept a stream, admit what comes in, and answer invites on the same stream.
    BootstrapServe,
    /// Open frames that wait.
    TransitIn,
    /// Admit canonical events that wait.
    EventAdmission,
    /// Project ready events.
    EventProjection,
    /// Release what waited for applied events.
    DependencyUnblock,
    /// Purge deleted content.
    ContentPurge,
    /// Retire the leaves of messages whose minute has passed by.
    DisappearingMinuteExpiry,
    /// Chop the history below the floors that have risen.
    DisappearingFloorDispatcher,
    /// Take purged events out of the sync index.
    NegentropyPurgeDrainer,
    /// Start rounds, and answer inbound sync events.
    SyncTick,
    /// Start a round with the next quiet peer.
    PeerSupervisor,
    /// Send what is queued.
    TransitOut,
}

/// A worker of a daemon turn.
#[derive(Debug, Clone, Copy, PartialEq, Eq)]
pub struct Worker {
    pub name: &'static str,
    pub step: DaemonStep,
}

/// The name of a worker.
pub open spec fn worker_name(step: DaemonStep) -> Seq<char> {
    match step {
        DaemonStep::BootstrapServe => "bootstrap_serve"@,
        DaemonStep::TransitIn => "transit_in"@,
        DaemonStep::EventAdmission => "event_admission"@,
        DaemonStep::EventProjection => "event_projection"@,
        DaemonStep::DependencyUnblock => "dependency_unblock"@,
        DaemonStep::ContentPurge => "content_purge"@,
        DaemonStep::DisappearingMinuteExpiry => "disappearing_minute_expiry"@,
        DaemonStep::DisappearingFloorDispatcher => "disappearing_floor_dispatcher"@,
        DaemonStep::NegentropyPurgeDrainer => "negentropy_purge_drainer"@,
        DaemonStep::SyncTick => "sync_tick"@,
        DaemonStep::PeerSupervisor => "peer_supervisor"@,
        DaemonStep::TransitOut => "transit_out"@,
    }
}

/// The steps of a daemon turn. A stream is accepted first, so that an answer to an invite goes
/// out on the stream that the requester opened; content that is deleted or expired is gone from
/// the history and from the sync index before a sync round reads them; what is queued goes out
/// last.
pub open spec fn turn_order() -> Seq<DaemonStep> {
    seq![
        DaemonStep::BootstrapServe,
        DaemonStep::TransitIn,
        DaemonStep::EventAdmission,
        DaemonStep::EventProjection,
        DaemonStep::DependencyUnblock,
        DaemonStep::ContentPurge,
        DaemonStep::DisappearingMinuteExpiry,
        DaemonStep::DisappearingFloorDispatcher,
        DaemonStep::NegentropyPurgeDrainer,
        DaemonStep::SyncTick,
        DaemonStep::PeerSupervisor,
        DaemonStep::TransitOut,
    ]
}

fn worker(step: DaemonStep) -> (w: Worker)
    ensures
        w.step == step,
        w.name@ == worker_name(step),
{
    let name = match step {
        DaemonStep::BootstrapServe => "bootstrap_serve",
        DaemonStep::TransitIn => "transit_in",
        DaemonStep::EventAdmission => "event_admission",
        DaemonStep::EventProjection => "event_projection",
        DaemonStep::DependencyUnblock => "dependency_unblock",
        DaemonStep::ContentPurge => "content_purge",
        DaemonStep::DisappearingMinuteExpiry => "disappearing_minute_expiry",
        DaemonStep::DisappearingFloorDispatcher => "disappearing_floor_dispatcher",
        DaemonStep::NegentropyPurgeDrainer => "negentropy_purge_drainer",
        DaemonStep::SyncTick => "sync_tick",
        DaemonStep::PeerSupervisor => "peer_supervisor",
        DaemonStep::TransitOut => "transit_out",
    };
    Worker { name, step }
}

/// The workers of a daemon turn, in the order in which they run.
pub fn daemon_workers<C: DaemonWorkerContext>() -> (r: Vec<Worker>)
    ensures
        r@.map_values(|w: Worker| w.step) == turn_order(),
        forall|i: int| 0 <= i < r@.len() ==> (#[trigger] r@[i]).name@ == worker_name(r@[i].step),
{
    let r = vec![
        worker(DaemonStep::BootstrapServe),
        worker(DaemonStep::TransitIn),
        worker(DaemonStep::EventAdmission),
        worker(DaemonStep::EventProjection),
        worker(DaemonStep::DependencyUnblock),
        worker(DaemonStep::ContentPurge),
        worker(DaemonStep::DisappearingMinuteExpiry),
        worker(DaemonStep::DisappearingFloorDispatcher),
        worker(DaemonStep::NegentropyPurgeDrainer),
        worker(DaemonStep::SyncTick),
        worker(DaemonStep::PeerSupervisor),
        worker(DaemonStep::TransitOut),
    ];
    assert(r@.map_values(|w: Worker| w.step) =~= turn_order());
    r
}

} // verus!
