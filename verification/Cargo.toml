[package]
name = "multilint"
version = "0.1.0"
edition = "2021"
publish = false

[dependencies]
anyhow = "*"
argmax = "*"
colored = "*"
env_logger = "*"
ignore = "*"
log = "*"
regex = "*"
serde = { version = "*", features = ["derive"] }
serde_json = "*"
sha2 = "*"
structopt = "*"
toml = "*"
which = "*"

[dev-dependencies]
tempfile = "*"
