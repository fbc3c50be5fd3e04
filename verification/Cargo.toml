[package]
name = "zipng"
version = "0.1.0"
edition = "2021"
publish = false

[dependencies]
flate2 = "1"
twox-hash = "1"
serde = { version = "1", features = ["derive"] }
serde_json = "1"
serde_bytes = "0.11"
postcard = { version = "1", features = ["use-std"] }
walkdir = "2"
eyre = "0.6"
color-eyre = "0.6"
tracing = "0.1"
tracing-subscriber = { version = "0.3", features = ["env-filter"] }
tracing-error = "0.2"
tokio = { version = "1", features = ["rt", "macros", "fs", "time", "sync"] }
reqwest = { version = "0.12", default-features = false }
scraper = "*"
ammonia = "*"
time = { version = "0.3", features = ["parsing", "macros"] }
once_cell = "1"
oklab = "*"
rgb = "0.8"
derive_more = { version = "1", features = ["full"] }
thiserror = "*"
