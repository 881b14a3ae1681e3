[package]
name = "clash_app"
version = "0.1.0"
edition = "2021"
publish = false

[dependencies]
anyhow = "=1.0.104"
futures = "=0.3.34"
h2 = "=0.4.20"
h3 = "=0.0.8"
h3-quinn = "=0.0.10"
http = "=1.5.0"
ip_network_table-deps-treebitmap = "=0.5.0"
ipnet = "=2.12.2"
lru = "=0.19.0"
moka = { version = "=0.12.16", features = ["sync"] }
network-interface = "=2.0.5"
parking_lot = "=0.13.0"
percent-encoding = "=2.3.2"
quick_cache = "=0.7.0"
quinn = "=0.11.12"
rand = "=0.10.3"
redb = "=4.4.0"
regex = "=1.13.1"
serde = { version = "=1.0.229", features = ["derive"] }
serde_json = "=1.0.154"
serde_yaml = "=0.9.34"
socket2 = { version = "=0.6.5", features = ["all"] }
time = { version = "=0.3.55", features = ["formatting", "local-offset", "macros"] }
tokio = { version = "=1.54.1", features = ["full"] }
tokio-rustls = { version = "=0.26.6", default-features = false, features = ["ring", "logging", "tls12"] }
tokio-util = "=0.7.20"
tracing = "=0.1.44"
tracing-appender = "=0.2.5"
tracing-subscriber = { version = "=0.3.23", features = ["env-filter", "time"] }
url = "=2.5.8"
