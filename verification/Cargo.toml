[package]
name = "prefix_tree"
version = "0.1.0"
edition = "2021"
publish = false

[dependencies]
dotenv = "0.15"
parking_lot = "0.12"
percent-encoding-rfc3986 = "0.1"
serde = { version = "1", features = ["derive"] }
serde_json = "1"
tokio = { version = "1", features = ["macros", "rt-multi-thread", "signal"] }
warp = { version = "0.3", default-features = false }
