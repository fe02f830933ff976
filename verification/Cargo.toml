[package]
name = "rust_kad"
version = "0.1.0"
edition = "2021"
publish = false

[dependencies]
anyhow = "1"
futures = "0.3"
libc = "0.2"
libp2p = { version = "0.54", features = ["dns", "identify", "kad", "macros", "noise", "ping", "tcp", "tokio", "websocket", "yamux"] }
parity-scale-codec = "3"
tokio = { version = "1", features = ["io-util", "macros", "rt", "sync"] }
tokio-fd = "0.3"
tracing-subscriber = { version = "0.3", features = ["env-filter"] }

[dev-dependencies]
bytes = "1"
tokio-util = { version = "0.7", features = ["codec"] }
