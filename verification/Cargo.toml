[package]
name = "blocked_groups"
version = "0.1.0"
edition = "2021"
publish = false

[dependencies]
arrow = { version = "=57.3.2", default-features = false }
hashbrown = "=0.16.1"
ahash = { version = "=0.8.12", features = ["runtime-rng"] }
datafusion-common = { version = "=52.5.0", default-features = false }
datafusion-expr-common = "=52.5.0"
