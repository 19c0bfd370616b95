[package]
name = "disky"
version = "0.1.0"
edition = "2021"
publish = false

[dependencies]
anyhow = "1"
chrono = "0.4"
serde = { version = "1", features = ["derive"] }
serde_json = "1"
toml = "*"
clap = { version = "4", features = ["derive"] }
dirs = "*"
duckdb = "*"
humansize = "2"
jwalk = "*"
memchr = "2"
num_cpus = "1"
flume = "*"
indicatif = "*"
ctrlc = "*"
crossterm = "*"
ratatui = "*"
arboard = { version = "*", default-features = false }

[dev-dependencies]
tempfile = "3"
