[package]
name = "mobius"
version = "0.1.0"
edition = "2021"
publish = false

[dependencies]
owo-colors = "*"
anyhow = "*"
chrono = { version = "*", features = ["serde"] }
clap = { version = "*", features = ["derive"] }
serde = { version = "*", features = ["derive"] }
serde_json = "*"
rand = "*"
rayon = "*"
regex = "*"
rusqlite = { version = "*", features = ["bundled"] }
toml = "*"
tracing = "*"
tracing-subscriber = { version = "*", features = ["env-filter"] }
dirs = "*"
tokio = { version = "*", features = ["full"] }
rmcp = { version = "*", features = ["server", "transport-io", "macros"] }
crossterm = "*"
ratatui = "*"
