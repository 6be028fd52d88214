[package]
name = "kvs"
version = "0.1.0"
edition = "2021"
publish = false

[dependencies]
serde = { version = "1", features = ["derive"] }
serde_json = "1"
sled = "0.34"
thiserror = "1"
argh = "0.1"
slog = "2"
slog-scope = "4"
slog-term = "2"
strum = "0.26"
strum_macros = "0.26"
rayon = "1"
anyhow = "1"
