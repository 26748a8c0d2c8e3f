[package]
name = "nsec_walk"
version = "0.1.0"
edition = "2021"
publish = false

[dependencies]
clap = { version = "=4.6.7", features = ["derive"] }
trust-dns-resolver = "=0.23.2"
trust-dns-proto = { version = "=0.23.2", features = ["dnssec"] }
