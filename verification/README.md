# topo_workers

The workers of a peer-to-peer event store, verified with Verus.

A worker takes a bounded piece of work off a queue or an index, decides what it means, and
writes the result where the next worker finds it. Everything that is decided is in `src/`, with a
contract that says what comes out for every input. What touches the outside world is in `app/`.

## Where things are

- Storage: `table`, `tables`, `event_store`, `store`, `history_store`, `content`, `keys`,
  `settings`.
- The event pipeline: `events`, `event_admission`, `event_projection`, `dependency_unblock`,
  `dependency_wake`, `unblocking`, `recording`, `purging`; what it keeps is in `pipeline_laws`.
- The key tree: `history`, `history_tree` (deriving and retiring the secret of one event),
  `history_chop` (letting go of a whole prefix of time), `pending_leaves`, `key_unwrap`,
  `key_rotation`, `encryption`; what it keeps is in `history_laws` and `history_chop_laws`.
- Content: `content_events`, `content_decrypt`, `content_purge`, `disappearing_minute_expiry`,
  `disappearing_floor_dispatcher`.
- Sync: `sync_index`, `sync_closure`, `sync_events`, `sync`, `sync_inbound`, `sync_protocol`,
  `negentropy_purge_drainer`, `peer_supervisor`.
- Transport: `connection_facts`, `connections`, `connection`, `endpoints`, `transit_in`,
  `transit_out`, `bootstrap_connect`, `bootstrap_exchange`.
- Byte layouts: `bytes`, `wire`, `schema`; texts: `text`.

`law_*` proof functions state what holds across calls.

## What is trusted

Three calls into outside crates are believed rather than proved: two BLAKE3 digests (`hash`) and
the opening of XChaCha20-Poly1305 (`aead`). Each is named, so that contracts can speak of its
result, and nothing more is claimed of it. Of std, `core::str::from_utf8` is believed to accept
what is valid UTF-8 and nothing else (`text`). The event modules of an application come in through
the trait `events::EventRegistry`.
