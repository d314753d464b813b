[package]
name = "flowdb"
version = "0.6.0"
edition = "2021"
publish = false

[dependencies]
lz4_flex = "0.11"
serde_json = "1"
serde = { version = "1", features = ["derive"] }
parking_lot = "0.12"
memmap2 = "0.9"
tracing = "0.1"
napi = { version = "2", default-features = false, features = ["napi4", "serde-json"] }
napi-derive = "2"
