# raft-rust

The Raft consensus protocol with a key/value store on top of it, as a library whose
behaviour is stated in contracts and proved with [Verus](https://github.com/verus-lang/verus),
and the programs around it.

A cluster elects a leader, replicates a log, commits what a majority has and applies it
to a state machine. Clients write through the log and read linearizably from the leader.
There are pre-votes, quorum checks, membership changes by joint consensus, session
deduplication of writes, snapshots, and a log-structured storage engine.

## Layout

- `src/raft/model.rs` says what a node does, as functions from the state before to the
  state after and the messages sent. The nodes in `node.rs`, `follower.rs`,
  `candidate.rs` and `leader.rs` are proved to do just that, on the log of `log.rs`.
- `src/raft/laws.rs`, `log_laws.rs` and `restart.rs` hold what is true of every node.
- `src/raft/safety.rs` holds what is true of a whole cluster: one leader in a term,
  matching logs, leaders that have what is committed, commits that never differ,
  states that follow what was committed, and reads that see it; `kv_laws.rs` says what
  a get gives back of a put. `history.rs`, `history_steps.rs` and the `world`
  modules hold the proofs.
- `src/raft/kv.rs`, `session.rs` and `state.rs` are the state machines.
- `src/raft/accept.rs` tests whether a message can be taken and whether a node can start;
  `runtime.rs` drives a node.
- `src/storage/` is the storage engines, `src/encoding/` the encodings.
- `src/net/` is the wire format, `src/cluster.rs` the in-process cluster and its
  transport, `src/retry.rs`, `cli.rs` and `config.rs` the rules of the clients and the
  configuration, `src/shown.rs` the answers as text.
- `app/` is the rest: sockets, files, threads and the command line.

What the proofs take on trust are the contracts of a few functions of bincode, itertools,
rand, uuid and the standard library. Each is marked where it stands.
