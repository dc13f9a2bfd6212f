//! A small Redis-compatible server library: the RESP wire codec, command
//! parsing, the key-value store with lazy and active expiry, the
//! per-connection rules for subscriptions and transactions, and the
//! publish/subscribe channels.

pub mod buffer;
pub mod command;
pub mod decimal;
pub mod display;
pub mod execute;
pub mod frame;
pub mod hub;
pub mod laws;
pub mod session;
pub mod store;
mod text;
