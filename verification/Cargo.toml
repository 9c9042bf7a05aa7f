[package]
name = "safety-net"
version = "0.1.0"
edition = "2021"
publish = false

[dependencies]
proc-macro2 = "1"
quote = "1"
serde = { version = "1", features = ["derive"] }
syn = "2"
thiserror = "2"

[dev-dependencies]
bitvec = "1"
