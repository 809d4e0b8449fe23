[package]
name = "tinypay"
version = "0.1.0"
edition = "2021"
publish = false

[dependencies]
futures = "0.3"
num_cpus = "1"
thiserror = "1"
tokio = { version = "1", features = ["fs", "io-util", "macros", "rt-multi-thread", "sync"] }
