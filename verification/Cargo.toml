[package]
name = "spmspm_pim"
version = "0.1.0"
edition = "2021"
publish = false

[dependencies]
itertools = "=0.15.0"
bit-vec = "=0.10.1"
hashbrown = "=0.17.1"
sprs = { version = "=0.11.6", default-features = false }
serde = { version = "=1.0.229", features = ["derive"] }
serde_json = "=1.0.154"
eyre = "=0.6.14"
statrs = "=0.19.1"
humantime = "=2.4.0"
rayon = "=1.12.0"
tracing = "=0.1.44"
