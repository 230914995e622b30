[package]
name = "pocket_tts_deploy"
version = "0.1.0"
edition = "2021"
publish = false

[dependencies]
anyhow = "1"
axum = "0.8"
candle-core = { version = "0.9", default-features = false }
candle-nn = { version = "0.9", default-features = false }
clap = { version = "4", features = ["derive"] }
hound = "3"
ndarray = "0.16"
openvino = { version = "0.11", features = ["runtime-linking"] }
ort = { version = "=2.0.0-rc.10", default-features = false, features = ["std", "ndarray", "load-dynamic"] }
rand = "0.9"
rand_distr = "0.5"
realfft = "3"
serde = { version = "1", features = ["derive"] }
serde_json = "1"
tokio = { version = "1", features = ["macros", "net", "rt-multi-thread", "signal"] }
tracing-subscriber = "0.3"
zip = { version = "2", default-features = false, features = ["deflate"] }
