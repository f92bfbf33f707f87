[package]
name = "cargo-featalign"
version = "0.1.0"
edition = "2021"
publish = false

[dependencies]
anyhow = "1"
cargo_metadata = "0.18"
clap = { version = "4", features = ["derive"] }
color-eyre = "0.6"
fxhash = "0.2"
imara-diff = "0.1"
num_cpus = "1"
regex = "1"
serde = { version = "1", features = ["derive"] }
serde_json = "1"
toml_edit = "0.22"
