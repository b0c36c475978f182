[package]
name = "vpfs"
version = "0.1.0"
edition = "2021"
publish = false

[dependencies]
lru = "*"
rand = "*"
iroh = "*"
tokio = { version = "*", features = ["rt-multi-thread", "macros"] }
clap = { version = "*", features = ["derive"] }
anyhow = "*"
