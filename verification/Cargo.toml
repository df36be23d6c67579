[package]
name = "ohhell"
version = "0.1.0"
edition = "2021"
publish = false

[dependencies]
rand = "0.8"
uuid = { version = "1", features = ["v4"] }
rmp-serde = "1"
serde = { version = "1", features = ["derive"] }
warp = "0.3"
tokio = { version = "1", features = ["macros", "rt-multi-thread", "sync"] }
futures = "0.3"
