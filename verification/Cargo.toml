[package]
name = "stitchlands"
version = "0.1.0"
edition = "2021"
publish = false

[dependencies]
rand = { version = "0.8", features = ["small_rng"] }
dashmap = "6"
serde = { version = "1", features = ["derive"] }
serde_json = "1"
ron = "0.8"
clap = { version = "4", features = ["derive"] }

[dev-dependencies]
toml = "0.8"
