[package]
name = "sonny"
version = "0.1.0"
edition = "2021"
publish = false

[dependencies]
core_affinity = "0.8"
libc = "0.2"
serde = { version = "1", features = ["derive"] }
serde_json = "1"
tokio = { version = "1", features = ["rt", "rt-multi-thread", "macros", "net", "io-util", "time", "signal", "sync"] }
tokio-serial = { version = "5", default-features = false }
zenoh = { version = "1", default-features = false, features = ["transport_tcp", "transport_udp"] }
