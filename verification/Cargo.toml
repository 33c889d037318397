[package]
name = "lore"
version = "0.1.0"
edition = "2021"
publish = false

[dependencies]
pulldown-cmark = { version = "0.13", default-features = false }
regex = "1"
gray_matter = "0.2"
unicode-segmentation = "1"
xxhash-rust = { version = "0.8", features = ["xxh3"] }
hashbrown = "0.15"
serde = { version = "1", features = ["derive"] }
serde_json = "1"
thiserror = "2"
tokio = { version = "1", features = ["full"] }
axum = "0.8"
rmcp = { version = "*", features = ["server", "macros", "transport-streamable-http-server"] }
schemars = "*"
clap = { version = "4", features = ["derive"] }
dashmap = "6"
memmap2 = "0.9"
parking_lot = "0.12"
notify = "8"
ignore = "0.4"
tracing = "0.1"
tracing-subscriber = { version = "0.3", features = ["env-filter"] }
