[package]
name = "todo_outline"
version = "0.1.0"
edition = "2021"
publish = false

[dependencies]
anyhow = "=1.0.104"
crossterm = { version = "=0.29.0", features = ["serde"] }
dirs = "=7.0.0"
ron = "=0.12.2"
serde = { version = "=1.0.229", features = ["derive"] }
thiserror = "=2.0.21"
time = { version = "=0.3.55", features = ["local-offset", "serde", "formatting", "parsing"] }
time-humanize = "=0.1.3"
