[package]
name = "broker_persist"
version = "0.1.0"
edition = "2021"
publish = false

[dependencies]
flate2 = "1"
chrono = "0.4"
tokio = { version = "1", features = ["rt"] }
