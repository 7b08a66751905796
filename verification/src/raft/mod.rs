//! The Raft consensus protocol.

pub mod accept;
pub mod candidate;
pub mod client_laws;
pub mod election_laws;
pub mod entry;
pub mod follower;
pub mod history;
pub mod history_steps;
pub mod ids;
pub mod kv;
pub mod kv_laws;
pub mod laws;
pub mod leader;
pub mod log;
pub mod log_laws;
pub mod membership;
pub mod membership_laws;
pub mod message;
pub mod model;
pub mod node;
pub mod order;
pub mod replication_laws;
pub mod restart;
pub mod runtime;
pub mod safety;
pub mod session;
pub mod state;
pub mod table;
pub mod world;
pub mod world_followers;
pub mod world_leaders;
pub mod world_states;
pub mod world_steps;

pub use entry::{Entry, Index, Term};
pub use ids::NodeID;
pub use log::{Key, Log};
pub use membership::{Membership, MembershipEntry, MembershipState};
pub use message::{Envelope, Message, ReadSequence, Request, RequestID, Response, Status};
pub use model::{Options, Ticks, HEARTBEAT_INTERVAL, MAX_APPEND_ENTRIES, TICK_INTERVAL};
pub use node::Node;
pub use session::{decode_session, encode_session, SessionState};
pub use state::State;
