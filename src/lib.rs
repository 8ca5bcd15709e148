//! A conversation thread store for a desktop chat client.
//!
//! Messages form rooted, branching trees scoped to a conversation. The
//! stores in this crate keep message content, parent/child edges and
//! conversation metadata; [`chat::Chat`] composes them and enforces the
//! tree invariants that no single store can see.

pub mod types;
pub mod messages;
pub mod threads;
pub mod conversations;
pub mod chat;
pub mod model;
pub mod provider;
pub mod configs;
pub mod key_manager;
pub mod markup;
pub mod utils;
