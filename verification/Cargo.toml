[package]
name = "realia"
version = "0.2.0"
edition = "2021"
publish = false

[dependencies]
anyhow = "1"
cargo_metadata = "0.10"
proc-macro2 = "1"
quote = "1"
serde_json = "1"
syn = { version = "1", features = ["full"] }
toml = "0.5"
version-compare = "0.0.10"
which = "4"
