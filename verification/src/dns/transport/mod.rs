//! The state and the decisions of DNS transports.

pub mod lifecycle;
pub mod pipelined;
pub mod udp_pool;
pub mod dial;
pub mod doh;
pub mod message;
pub mod retry;
