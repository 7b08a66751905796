//! A Raft consensus library: a deterministic node driven by `step` and `tick`,
//! a replicated log on a pluggable ordered key/value engine, and a pluggable
//! state machine fed from the committed log.

pub mod cli;
pub mod cluster;
pub mod config;
pub mod encoding;
pub mod error;
pub mod net;
pub mod raft;
pub mod retry;
pub mod shown;
pub mod storage;
pub mod text;

pub use error::{Error, Result};
pub use raft::kv;
pub use raft::{
    encode_session, Entry, Envelope, Index, Key, Log, Membership, MembershipEntry, Message, Node,
    NodeID, Options, Request, Response, SessionState, State, Status, Term, TICK_INTERVAL,
};
pub use storage::{BitCask, Engine};
