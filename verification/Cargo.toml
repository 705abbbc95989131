[package]
name = "bt"
version = "0.1.0"
edition = "2021"
publish = false

[dependencies]
regex = "=1.13.1"
lru = { version = "=0.12.5", default-features = false }
sha1 = "=0.10.7"
sha2 = "=0.10.9"
hex = "=0.4.3"
tokio = { version = "1", features = ["full"] }
reqwest = { version = "*", default-features = false, features = ["form"] }
serde = { version = "1", features = ["derive"] }
serde_json = "1"
serde-xml-rs = "=0.8.2"
sqlx = { version = "0.7", default-features = false, features = ["sqlite", "runtime-tokio"] }
chrono = "*"
clap = { version = "4", features = ["derive"] }
log = "0.4"
env_logger = "*"
dotenvy = "*"
anyhow = "1"
async-trait = "*"
