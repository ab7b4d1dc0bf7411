[package]
name = "rkwhisper"
version = "0.1.0"
edition = "2021"
publish = false

[dependencies]
anyhow = "=1.0.104"
clap = { version = "=4.6.7", features = ["derive"] }
hound = "=3.5.1"
pyo3 = { version = "=0.25.1", features = ["abi3-py39", "extension-module"] }
rknpu2 = { version = "=0.0.9", features = ["libloading", "rk35xx", "rk3576"] }
rustix = { version = "=1.1.6", features = ["fs", "mm", "net"] }
serde = { version = "=1.0.229", features = ["derive"] }
serde_json = "=1.0.154"
thiserror = "=2.0.21"
tokenizers = { version = "=0.23.2", default-features = false, features = ["fancy-regex"] }
tokio = { version = "=1.54.1", features = ["macros", "rt", "rt-multi-thread", "sync", "time", "net", "io-util"] }
toml = "=1.1.8"
tracing = "=0.1.44"
tracing-subscriber = { version = "=0.3.23", features = ["env-filter"] }
