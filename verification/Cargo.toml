[package]
name = "rds"
version = "0.1.0"
edition = "2021"
publish = false

[dependencies]
regex = "1"
anyhow = "1"
atty = "0.2"
clap = { version = "4", features = ["derive"] }
console = "*"
futures = "0.3"
glob = "0.3"
indicatif = "*"
notify = "*"
once_cell = "1"
rayon = "1"
serde = { version = "1", features = ["derive"] }
serde_json = "1"
tokio = { version = "1", features = ["full"] }
toml = "*"
walkdir = "2"

[dev-dependencies]
tempfile = "3"
