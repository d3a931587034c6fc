//! An asynchronous answer cache with a bounded pool of service clients.
//!
//! A caller submits a request, gets an opaque token back at once, and later
//! polls with that token for the answer that a background worker stores.

pub mod error;
pub mod token;
pub mod answer_cache;
pub mod client_pool;
pub mod handler;
pub mod server;
