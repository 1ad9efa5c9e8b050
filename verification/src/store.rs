//! The protocol store: row tables and the durable event store.
use vstd::prelude::*;
use crate::event_store::{EventState, EventStore};
use crate::tables::{Rows, Tables};

verus! {

/// The contents of the protocol store.
#[verifier::ext_equal]
pub struct StoreState {
    pub rows: Rows,
    pub events: EventState,
}

/// Row tables and stored events. A worker that fails leaves it as it was: work that may
/// fail half way runs on a copy that takes its place when the work is done.
pub struct Store {
    pub tables: Tables,
    pub events: EventStore,
}

impl View for Store {
    type V = StoreState;

    open spec fn view(&self) -> StoreState {
        StoreState { rows: self.tables@, events: self.events@ }
    }
}

impl Store {
    pub open spec fn wf(&self) -> bool {
        self.tables.wf() && self.events.wf()
    }

    /// A store without rows and events.
    pub fn new() -> (s: Store)
        ensures
            s.wf(),
            s@ == (StoreState {
                rows: Map::empty(),
                events: EventState {
                    events: Map::empty(),
                    edges: Set::empty(),
                    labels: Set::empty(),
                },
            }),
    {
        Store { tables: Tables::new(), events: EventStore::new() }
    }

    /// A copy of the store.
    pub fn duplicate(&self) -> (r: Store)
        requires
            self.wf(),
        ensures
            r.wf(),
            r@ == self@,
    {
        Store { tables: self.tables.duplicate(), events: self.events.duplicate() }
    }
}

} // verus!
