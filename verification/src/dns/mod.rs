//! DNS: wire handling, configuration, caches, resolvers and transports.

pub mod collector;
pub mod config;
pub mod ecs;
pub mod endpoint;
pub mod fakeip;
pub mod filters;
pub mod framing;
pub mod nameserver;
pub mod query;
pub mod resolver;
pub mod response;
pub mod rule_dispatch;
pub mod singleflight;
pub mod transport;
pub mod upstream_pool;
pub mod wire;
