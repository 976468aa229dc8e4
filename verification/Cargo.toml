[package]
name = "foyer_blocks"
version = "0.1.0"
edition = "2021"
publish = false

[dependencies]
bitflags = "2"
clap = { version = "4", features = ["derive"] }
futures-core = "0.3"
futures-util = "0.3"
itertools = "0.14"
mea = "*"
parking_lot = "0.12"
rand = "0.9"
serde = { version = "1", features = ["derive"] }
tracing = "0.1"
