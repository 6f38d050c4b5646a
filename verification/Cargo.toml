[package]
name = "pebble"
version = "0.1.0"
edition = "2021"
publish = false

[dependencies]
chrono = "0.4"
clap = { version = "4", features = ["derive", "env"] }
color-eyre = "0.6"
deunicode = "1"
nanoid = "0.4"
serde = { version = "1", features = ["derive"] }
serde_json = "1"
serde-saphyr = "*"
toml = "*"

[dev-dependencies]
tempfile = "3"
