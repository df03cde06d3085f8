[package]
name = "minikv"
version = "0.1.0"
edition = "2021"
publish = false

[dependencies]
bytes = "*"
tokio = { version = "*", features = ["rt-multi-thread", "net", "io-util", "macros", "sync"] }
