//! Listeners for clients: what they are, which of them run, and how they change.
pub mod manager;
pub mod network_listener;
pub mod opts;
