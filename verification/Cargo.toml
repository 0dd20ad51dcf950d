[package]
name = "lazier"
version = "0.1.0"
edition = "2021"
publish = false

[dependencies]
anyhow = "=1.0.104"
gix = { version = "=0.90.0", default-features = false, features = ["status", "sha1", "revision", "parallel"] }
notify = "=8.2.1"
ratatui = "=0.30.2"
