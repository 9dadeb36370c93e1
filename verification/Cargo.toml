[package]
name = "iroh-rings"
version = "0.7.0"
edition = "2021"
publish = false

[dependencies]
anyhow = "1"
bao-tree = "*"
bytes = "1"
futures-lite = "*"
hex = "*"
iroh = { version = "1", default-features = false, features = ["tls-ring"] }
iroh-blobs = { version = "*", default-features = false, features = ["fs-store"] }
iroh-io = "*"
redb = "3"
serde = { version = "1", features = ["derive"] }
serde_millis = "*"
thiserror = "2"
tokio = { version = "1", features = ["rt"] }
tracing = "0.1"

[dev-dependencies]
tempfile = "3"
