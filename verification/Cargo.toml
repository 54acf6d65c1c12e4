[package]
name = "emailsnap"
version = "0.1.0"
edition = "2021"
publish = false

[dependencies]
chrono = "0.4"
data-encoding = "2"
imap = "2"
native-tls = "0.2"
reqwest = { version = "0.12", features = ["json"] }
serde = { version = "1", features = ["derive"] }
serde_json = "1"
tokio = { version = "1", features = ["rt-multi-thread", "macros", "time"] }
