//! The wire protocol between processes.

pub mod codec;
pub mod exchange;
pub mod parts;

pub use codec::WireMsg;
pub use exchange::Inbound;
