[package]
name = "dokono"
version = "0.1.0"
edition = "2021"
publish = false

[dependencies]
anyhow = "1"
async-lsp = { version = "0.2", features = ["client-monitor", "tokio"] }
cargo_metadata = "0.18"
clap = { version = "4", features = ["derive"] }
futures = "0.3"
gix = { version = "*", features = ["blocking-network-client"] }
indicatif = "0.18"
lsp-types = "0.95"
proc-macro2 = { version = "1", features = ["span-locations"] }
rustsec = { version = "*", default-features = false }
semver = "1"
serde = { version = "1", features = ["derive"] }
serde_json = "1"
syn = { version = "2", features = ["full", "visit", "extra-traits"] }
tokio = { version = "1", features = ["full"] }
tokio-util = { version = "0.7", features = ["compat"] }
tower = "0.5"
tracing = "0.1"
tracing-subscriber = { version = "0.3", features = ["env-filter"] }
url = "2"
walkdir = "2"
