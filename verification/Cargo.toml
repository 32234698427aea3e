[package]
name = "olivaw"
version = "0.1.0"
edition = "2021"
publish = false

[dependencies]
sha2 = "0.10"
owo-colors = "4"
toml_edit = "0.23"
toml = "0.9"
serde = { version = "1", features = ["derive"] }
anyhow = "1"
clap = { version = "4", features = ["derive", "env"] }
dialoguer = "0.11"
include_dir = "0.7"
indicatif = "0.18"
similar = "2"
embedded-hal = "1.0"
