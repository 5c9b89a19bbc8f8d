[package]
name = "sctp"
version = "0.1.0"
edition = "2021"
publish = false

[dependencies]
async-trait = "0.1"
bytes = "1"
futures-channel = "0.3"
futures-util = { version = "0.3", features = ["io"] }
fxhash = "0.2"
log = "0.4"
rand = "0.8"
slab = "0.4"
thiserror = "1"
tokio = { version = "1", features = ["io-util", "macros", "rt", "sync", "time", "net"] }
tracing = "0.1"
