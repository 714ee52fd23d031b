[package]
name = "degu"
version = "0.1.0"
edition = "2021"
publish = false

[dependencies]
anyhow = "=1.0.104"
clap = { version = "=4.6.7", features = ["derive"] }
is-terminal = "=0.4.17"
serde_json = { version = "=1.0.154", features = ["preserve_order"] }
