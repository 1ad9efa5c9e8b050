use topo_workers::connections::ConnectionId;
use topo_workers::events::{EventRegistry, EventWithContext, ProjectionOutput};
use topo_workers::peer_supervisor::PeerCursor;
use topo_workers::store::Store;
use topo_workers::sync_index::SyncIndex;
use topo_workers::types::EventRecord;
use topo_workers::workers::{daemon_workers, DaemonWorkerContext};

fn cid(byte: u8) -> ConnectionId {
    [byte; 32]
}

#[test]
fn cursor_rotates_through_peers_and_wraps() {
    let mut cursor = PeerCursor::new();
    let peers = vec![cid(1), cid(2), cid(3)];
    assert_eq!(cursor.pick_next(&peers), Some(cid(1)));
    assert_eq!(cursor.pick_next(&peers), Some(cid(2)));
    assert_eq!(cursor.pick_next(&peers), Some(cid(3)));
    assert_eq!(cursor.pick_next(&peers), Some(cid(1)));
}

#[test]
fn cursor_handles_changing_peer_set() {
    let mut cursor = PeerCursor::new();
    assert_eq!(cursor.pick_next(&[cid(2), cid(4)]), Some(cid(2)));
    // A peer that joined sorts before the cursor; rotation still wraps.
    assert_eq!(cursor.pick_next(&[cid(1), cid(2), cid(4)]), Some(cid(4)));
    // A peer that disappeared; rotation falls back to the first available.
    assert_eq!(cursor.pick_next(&[cid(1), cid(2)]), Some(cid(1)));
}

#[test]
fn cursor_returns_none_for_empty_peer_set() {
    let mut cursor = PeerCursor::new();
    assert!(cursor.pick_next(&[]).is_none());
}

#[test]
fn empty_peer_set_keeps_the_place_in_the_rotation() {
    let mut cursor = PeerCursor::new();
    assert_eq!(cursor.pick_next(&[cid(1), cid(2)]), Some(cid(1)));
    assert_eq!(cursor.pick_next(&[]), None);
    assert_eq!(cursor.pick_next(&[cid(1), cid(2)]), Some(cid(2)));
}

#[test]
fn daemon_worker_catalog_lists_named_workers() {
    let names: Vec<&'static str> = daemon_workers::<TestContext>()
        .iter()
        .map(|w| w.name)
        .collect();
    assert!(names.contains(&"bootstrap_serve"));
    assert!(names.contains(&"transit_in"));
    assert!(names.contains(&"sync_tick"));
    assert!(names.contains(&"transit_out"));
    assert!(names.contains(&"peer_supervisor"));
}

#[test]
fn daemon_workers_run_in_turn_order() {
    let names: Vec<&'static str> = daemon_workers::<TestContext>()
        .iter()
        .map(|w| w.name)
        .collect();
    assert_eq!(
        names,
        vec![
            "bootstrap_serve",
            "transit_in",
            "event_admission",
            "event_projection",
            "dependency_unblock",
            "content_purge",
            "disappearing_minute_expiry",
            "disappearing_floor_dispatcher",
            "negentropy_purge_drainer",
            "sync_tick",
            "peer_supervisor",
            "transit_out",
        ]
    );
}

/// A context that only names the workers; none of them is run with it.
struct TestContext;

impl EventRegistry for TestContext {
    fn record_from_bytes(&self, _bytes: Vec<u8>) -> Result<EventRecord, String> {
        Err("not provided".to_string())
    }

    fn project_record(
        &self,
        _store: &Store,
        _event: &EventWithContext<'_>,
    ) -> Result<ProjectionOutput, String> {
        Err("not provided".to_string())
    }
}

impl DaemonWorkerContext for TestContext {
    fn store(&self) -> &Store {
        unreachable!()
    }

    fn sync_index(&self) -> &SyncIndex {
        unreachable!()
    }

    fn peer_supervisor_cursor(&self) -> &PeerCursor {
        unreachable!()
    }
}
