//! Byte formats: the value encoding of messages and records, and the
//! order-preserving encoding of keys.

pub mod bincode;
pub mod bytes;
pub mod keycode;

pub use keycode::Key;
