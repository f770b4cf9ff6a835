[package]
name = "onced"
version = "0.1.0"
edition = "2021"
publish = false

[dependencies]
axum = "0.7"
monoio = "0.2"
reqwest = { version = "0.12", default-features = false, features = ["rustls-tls"] }
tokio = { version = "1", features = ["rt-multi-thread", "macros", "net", "time"] }
