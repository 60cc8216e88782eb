[package]
name = "lectev"
version = "0.1.0"
edition = "2021"
publish = false

[dependencies]
backoff = { version = "=0.3.0", features = ["tokio"] }
base64 = "=0.13.1"
bdays = "=0.1.4"
bitflags = "=1.3.2"
chrono = { version = "=0.4.45", features = ["serde"] }
colored = "=2.2.0"
csv-async = { version = "=1.3.1", features = ["tokio"] }
derive_more = "=0.99.20"
envy = "=0.4.2"
features = "=0.10.0"
futures = "=0.3.34"
percentage-rs = { version = "=0.1.6", features = ["serde_support"] }
rand = "=0.8.8"
reqwest = { version = "=0.11.27", default-features = false, features = ["json", "rustls-tls"] }
retain_mut = "=0.1.9"
serde = { version = "=1.0.229", features = ["derive"] }
serde_json = "=1.0.154"
serde_yaml = "=0.8.26"
shellexpand = "=2.1.2"
snafu = "=0.6.10"
structopt = "=0.3.26"
tokio = { version = "=1.54.1", features = ["full"] }
tokio-stream = "=0.1.19"
tracing = "=0.1.44"
tracing-appender = "=0.2.5"
tracing-subscriber = "=0.3.23"
uom = { version = "=0.38.0", features = ["serde"] }
url = { version = "=2.5.8", features = ["serde"] }
uuid = { version = "=0.8.2", features = ["v4", "serde"] }
