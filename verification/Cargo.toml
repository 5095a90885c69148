[package]
name = "xcrab"
version = "0.1.0"
edition = "2021"
publish = false

[dependencies]
breadx = { version = "0.1", features = ["async"] }
tokio = { version = "1", features = ["macros", "rt", "rt-multi-thread", "net", "io-util", "sync"] }
toml = "0.5"
serde = { version = "1", features = ["derive"] }
