//! What is read from files and servers: rule sets, proxies and listeners.
pub mod cidr_trie;
pub mod fetcher;
pub mod filtered_provider;
pub mod healthcheck;
pub mod http_vehicle;
pub mod rule_provider;
