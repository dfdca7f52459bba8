[package]
name = "chat_relay"
version = "0.1.0"
edition = "2021"
publish = false

[dependencies]
tokio = { version = "*", features = ["rt-multi-thread", "macros", "net", "sync"] }
tokio-websockets = { version = "*", features = ["client", "server", "sha1_smol", "rand"] }
futures-util = { version = "*", features = ["sink"] }

[dev-dependencies]
serde_json = "*"
