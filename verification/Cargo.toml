[package]
name = "dns_benchmark"
version = "0.1.0"
edition = "2021"
publish = false

[dependencies]
indexmap = "2"
rand = "0.9"
sprintf = "0.4"
csv = "1"
chrono = "0.4"
hickory-resolver = { version = "0.25", features = ["tokio", "tls-ring"] }
tokio = { version = "1", features = ["full"] }
futures = "0.3"
indicatif = "0.17"
hocon = "0.9"
serde = { version = "1", features = ["derive"] }
