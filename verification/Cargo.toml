[package]
name = "permanent"
version = "0.1.0"
edition = "2021"
publish = false

[dependencies]
anyhow = "*"
clap = { version = "*", features = ["derive"] }
mimalloc = "*"
rand = "*"
rayon = "*"
serde = { version = "*", features = ["derive"] }
simd-json = "*"
tracing = "*"
tracing-subscriber = { version = "*", features = ["env-filter"] }
