# raftkv

A key/value store replicated with Raft, over a log-structured storage engine.

- `src/bitcask`: the storage engine. Records (`data`) are appended to
  segments (`segment`) kept in byte stores (`fio`); an index (`index`) maps
  each key to the position of its latest record; the engine (`db`) writes,
  reads, rotates segments and rebuilds its index from the segments when it is
  opened (`recovery` states what that rebuild computes). Segment files are
  named after their ids (`naming`).
- `src/store`: what a Raft node keeps: the log (`log_store`), the state
  machine that applies it to the engine (`state_machine`), and the snapshots
  (`example_store`).
- `src/proto.rs`: the answers a node gives its clients.
- `app/`: the parts that do I/O: segment files on disk, the node's TCP
  service, the adapter that gives the storage to the Raft implementation, and
  the serialisable copies of the library's types.

Everything under `src/` is verified with Verus; `app/` is ordinary Rust.
