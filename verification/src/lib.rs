//! Session-backed storage for flash messages: short-lived notifications that
//! are queued while one request is handled and displayed during the next one.
//!
//! The library owns one slot inside a per-client session map. [`store`] writes
//! the queued messages into that slot (or removes the slot when nothing is
//! queued) and [`load`] reads them back. Messages are kept in the slot in a
//! length-prefixed text encoding whose round trip is proved in [`codec`].
//!
//! [`store`]: store::SessionMessageStore::store
//! [`load`]: store::SessionMessageStore::load

pub mod codec;
pub mod laws;
pub mod message;
pub mod session;
pub mod store;
