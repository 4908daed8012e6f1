[package]
name = "axiograph"
version = "0.1.0"
edition = "2021"
publish = false

[dependencies]
serde_json = "1"
rand = "0.8"
tokio = { version = "1", features = ["rt-multi-thread", "macros", "time"] }
futures = "0.3"
clap = { version = "4", features = ["derive", "env"] }
colored = "2"
evilcorp_secondpilot = "*"
