//! The workers of a peer-to-peer event store: bounded steps that admit, project, sync, send and
//! purge events, and the key tree that makes deleted content unreadable.
//!
//! A worker is a function over a store and a piece of work. What it leaves and what it returns
//! is stated for every input; `law_*` proof functions state what holds across calls.
pub mod aead;
pub mod bootstrap_connect;
pub mod bootstrap_exchange;
pub mod bytes;
pub mod connection;
pub mod connection_facts;
pub mod connections;
pub mod content;
pub mod content_decrypt;
pub mod content_events;
pub mod content_purge;
pub mod dependency_unblock;
pub mod dependency_wake;
pub mod disappearing_floor_dispatcher;
pub mod disappearing_minute_expiry;
pub mod encryption;
pub mod endpoints;
pub mod event_admission;
pub mod event_projection;
pub mod event_store;
pub mod events;
pub mod hash;
pub mod history;
pub mod history_chop;
pub mod history_chop_laws;
pub mod history_laws;
pub mod history_store;
pub mod history_tree;
pub mod key_rotation;
pub mod key_unwrap;
pub mod keys;
pub mod negentropy_purge_drainer;
pub mod peer_supervisor;
pub mod pending_leaves;
pub mod pipeline_laws;
pub mod purging;
pub mod recording;
pub mod schema;
pub mod settings;
pub mod store;
pub mod sync;
pub mod sync_closure;
pub mod sync_events;
pub mod sync_inbound;
pub mod sync_index;
pub mod sync_protocol;
pub mod table;
pub mod tables;
pub mod text;
pub mod transit_in;
pub mod transit_out;
pub mod types;
pub mod unblocking;
pub mod wire;
pub mod workers;
