[package]
name = "bigsets"
version = "0.1.0"
edition = "2021"
publish = false

[dependencies]
bytes = "1"
prost = "0.13"
tokio = { version = "1", features = ["rt-multi-thread", "macros", "net", "io-util", "sync", "time", "signal"] }
tracing = "0.1"
tracing-subscriber = "0.3"
clap = { version = "4", features = ["derive"] }
serde = { version = "1", features = ["derive"] }
config = { version = "*", default-features = false, features = ["toml"] }
thiserror = "1"
tempfile = "3"
r2d2 = "*"
r2d2_sqlite = "*"
rusqlite = { version = "*", features = ["bundled"] }
