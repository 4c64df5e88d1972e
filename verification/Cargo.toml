[package]
name = "veilstrike"
version = "0.1.0"
edition = "2021"
publish = false

[dependencies]
clap = { version = "4", features = ["derive"] }
csv = "1"
futures = "0.3"
psl = "2"
tokio = { version = "1", features = ["full"] }
trust-dns-resolver = "0.23"
url = "2"
