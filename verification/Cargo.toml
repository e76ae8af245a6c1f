[package]
name = "combatlog"
version = "0.1.0"
edition = "2021"
publish = false

[dependencies]
anyhow = "=1.0.104"
base64 = "=0.22.1"
rand = "=0.8.8"
serde = { version = "=1.0.229", features = ["derive"] }
serde_json = "=1.0.154"
sha2 = "=0.10.9"
tokio = { version = "=1.54.1", features = ["net", "io-util", "time", "macros", "rt"] }
url = "=2.5.8"

[dev-dependencies]
regex = "1"
