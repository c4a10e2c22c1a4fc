[package]
name = "hg-git-fast-import"
version = "1.3.8"
edition = "2021"
publish = false

[dependencies]
anyhow = "1"
dialoguer = "0.11"
hg-parser = "*"
indicatif = "0.17"
log = "0.4"
regex = "1"
serde = { version = "1", features = ["derive"] }
structopt = "0.3"
thiserror = "1"
toml = "0.8"
tracing = "0.1"
tracing-appender = "0.2"
tracing-subscriber = "0.3"
