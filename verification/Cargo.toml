[package]
name = "peer_discovery"
version = "0.1.0"
edition = "2021"
publish = false

[dependencies]
libp2p = { version = "*", default-features = false, features = ["kad", "identify", "tcp", "tokio", "noise", "yamux", "macros"] }
tokio = { version = "*", features = ["rt-multi-thread", "macros", "time"] }
