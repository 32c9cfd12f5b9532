[package]
name = "sand"
version = "0.1.0"
edition = "2021"
publish = false

[dependencies]
actix = "=0.8.3"
actix-raft = "=0.4.4"
chrono = "=0.4.19"
futures = "=0.1.31"
failure = "=0.1.8"
log = "0.4"
rmp-serde = "1.3"
rocksdb = "=0.12.4"
serde = { version = "1.0", features = ["derive"] }
serde_json = "1.0"
