[package]
name = "fmemo"
version = "0.1.0"
edition = "2021"
publish = false

[dependencies]
clap = "4"
futures-util = "0.3"
notify = "6"
serde = { version = "1", features = ["derive"] }
serde_json = "1"
tokio = { version = "1", features = ["full"] }
warp = "0.3"
