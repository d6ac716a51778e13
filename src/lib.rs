//! A small in-memory key-value server core: the wire codec for the
//! line-oriented protocol, the command model, the store and the
//! per-request session decisions.

pub mod protocol;
pub mod store;
pub mod command;
pub mod session;
