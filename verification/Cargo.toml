[package]
name = "scraps"
version = "0.1.0"
edition = "2021"
publish = false

[dependencies]
itertools = "*"
serde = { version = "1", features = ["derive"] }
serde_json = "1"
anyhow = "1"
url = "2"
chrono-tz = "*"
once_cell = "1"
rayon = "1"
tracing = "0.1"
tokio = { version = "1", features = ["rt-multi-thread", "net", "macros", "fs"] }
hyper = { version = "1", features = ["server", "http1"] }
hyper-util = { version = "0.1", features = ["tokio"] }
