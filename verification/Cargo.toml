[package]
name = "depcheck"
version = "0.3.1"
edition = "2021"
publish = false

[dependencies]
semver = "=1.0.28"
unicode-width = "=0.2.3"
chrono = { version = "=0.4.45", default-features = false, features = ["std", "clock"] }
serde = { version = "=1.0.229", features = ["derive"] }
serde_json = "=1.0.154"
anyhow = "=1.0.104"
clap = { version = "=4.6.7", features = ["derive", "env"] }
clap_complete = "=4.6.11"
clap_mangen = "=0.3.3"
colored = "=3.1.1"
terminal_size = "=0.4.4"
tokio = { version = "=1.54.1", features = ["rt-multi-thread", "macros", "time", "sync"] }
cargo_metadata = "=0.23.1"
reqwest = { version = "0.13", features = ["json"] }
tame-index = { version = "=0.26.3", features = ["sparse"] }
rustsec = "=0.33.0"
kstring = "=2.0.2"
