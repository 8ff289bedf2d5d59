[package]
name = "collab_sync"
version = "0.1.0"
edition = "2021"
publish = false

[dependencies]
anyhow = "=1.0.104"
assert-json-diff = "=2.0.2"
bytes = "=1.12.1"
chrono = { version = "=0.4.45", default-features = false, features = ["clock", "std"] }
futures-util = "=0.3.34"
hex = "=0.4.3"
mime = "=0.3.17"
pgvector = { version = "=0.4.2", features = ["sqlx"] }
redis = { version = "=0.27.6", default-features = false, features = ["uuid", "bytes"] }
serde = { version = "=1.0.229", features = ["derive"] }
serde_json = "=1.0.154"
sqlx = { version = "=0.9.0", default-features = false, features = ["postgres", "runtime-tokio", "uuid", "chrono", "json", "derive"] }
tempfile = "=3.27.0"
tokio = { version = "=1.54.1", features = ["time", "rt", "macros", "sync"] }
tokio-stream = "=0.1.19"
tracing = "=0.1.44"
uuid = { version = "=1.29.0", features = ["v4"] }
