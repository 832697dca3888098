//! Core logic of a real-time chat gateway: presence tracking per channel,
//! credential-based login decisions, cursor-paginated message history with a
//! permission gate, and the framing of every outbound wire event.
//!
//! The network transport and the persistent store are not here: callers hand
//! this library plain values (the store's answer to a lookup, the rows a query
//! returned) and carry out the delivery instructions it returns.

pub mod auth;
pub mod codec;
pub mod events;
pub mod history;
pub mod lifecycle;
pub mod presence;
pub mod session;
pub mod text;
