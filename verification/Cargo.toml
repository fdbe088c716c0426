[package]
name = "libp2p_ffi"
version = "0.1.2"
edition = "2021"
publish = false

[dependencies]
libp2p = { version = "=0.56.0", features = ["ed25519", "gossipsub", "identify", "kad", "macros", "noise", "ping", "quic", "request-response", "tcp", "tokio", "yamux"] }
futures = "0.3"
tokio = { version = "1", features = ["rt-multi-thread", "sync", "time", "macros"] }
async-trait = "0.1"
