[package]
name = "ztreamer"
version = "0.1.0"
edition = "2021"
publish = false

[dependencies]
bincode = "=1.3.3"
heed = { version = "0.22", default-features = false }
hex = "=0.4.3"
prost = "0.14"
rayon = "1"
serde = { version = "1", features = ["derive"] }
thiserror = "2"
tokio = { version = "1", features = ["rt", "sync"] }
tokio-stream = { version = "0.1", default-features = false }
tonic = { version = "0.14", default-features = false }
tracing = "0.1"
zakura-chain = "=3.0.1"

[dev-dependencies]
zakura-test = "=2.0.1"
