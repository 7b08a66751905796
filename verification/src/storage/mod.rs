//! Ordered key/value storage for the Raft log.

pub mod bitcask;
pub mod engine;
pub mod memory;
pub mod sorted;
pub mod span;

pub use bitcask::BitCask;
pub use engine::{Engine, Status};
pub use memory::Memory;
