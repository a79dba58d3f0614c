[package]
name = "board"
version = "0.1.0"
edition = "2021"
publish = false

[dependencies]
anyhow = "=1.0.104"
chrono = { version = "=0.4.45", default-features = false, features = ["std", "clock"] }
libc = "=0.2.191"
reqwest = { version = "=0.12.28", default-features = false, features = ["json", "rustls-tls"] }
serde = { version = "=1.0.229", features = ["derive"] }
slint = { version = "=1.18.1", default-features = false, features = ["std", "compat-1-2"] }
subprocess = "1"
tokio = { version = "=1.54.1", features = ["rt-multi-thread", "time", "net", "sync", "macros"] }
