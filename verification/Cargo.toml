[package]
name = "orderbook_engine"
version = "0.1.0"
edition = "2021"
publish = false

[dependencies]
futures = "*"
pricelevel = "*"
rdkafka = "*"
serde = { version = "*", features = ["derive"] }
serde_json = "*"
tokio = { version = "*", features = ["rt-multi-thread", "macros", "sync"] }
tracing = "*"
tracing-subscriber = "*"
