# cache

A distributed key-value cache node: an arena-backed store, a binary client
protocol, and a Raft-style consensus state machine, written in Verus.

- `src/` is the verified library. `models/arena.rs` and `models/cache_store.rs`
  hold the store (values live in one arena; dead bytes are reclaimed by
  compaction); `raft.rs` and `rpc.rs` the replicated log, the node's
  consensus state and the wire forms of its messages; `models/server_state.rs`
  the step from one event to the next state and the effect to perform;
  `protocol.rs`, `command.rs`, `status.rs` and `response.rs` the client
  protocol; `bytes.rs` big-endian encoding.
- `app/` runs the node: sockets, threads, timers and the clock.
- `tests/` exercise the library.
