//! Verified core of a rule-based proxy's application layer: DNS handling,
//! fake-IP allocation, inbound management and rule providers.

pub mod collections;
pub mod dns;
pub mod error;
pub mod inbound;
pub mod ip;
pub mod logging;
pub mod net;
pub mod outbound;
pub mod profile;
pub mod providers;
pub mod session;
pub mod text;
pub mod trie;
pub mod uri;
