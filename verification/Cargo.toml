[package]
name = "pond_core"
version = "0.1.0"
edition = "2021"
publish = false

[dependencies]
clap = { version = "4", features = ["derive", "env"] }
lru = "0.12"
moka = { version = "0.12", features = ["sync"] }
rayon = "1"
ruzstd = "0.8"
serde_json = "1"
zstd = "0.13"

[dev-dependencies]
tempfile = "3"
