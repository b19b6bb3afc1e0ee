[package]
name = "beditor"
version = "0.1.0"
edition = "2021"
publish = false

[dependencies]
anyhow = "1"
chardetng = "0.1"
clap = { version = "4", features = ["derive"] }
crossterm = "0.27"
encoding_rs = "0.8"
memchr = "2"
parking_lot = "0.12"
ratatui = "0.26"
sysinfo = { version = "0.30", default-features = false }
thiserror = "1"
tokio = { version = "1", features = ["rt-multi-thread", "macros", "sync", "time", "fs", "io-util"] }
tracing = "0.1"
tracing-subscriber = { version = "0.3", features = ["env-filter"] }
