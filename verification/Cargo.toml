[package]
name = "offchain"
version = "0.1.0"
edition = "2021"
publish = false

[dependencies]
futures = "0.3"
reqwest = { version = "0.11", default-features = false, features = ["blocking", "rustls-tls"] }
sqlx = { version = "0.6", default-features = false, features = ["postgres", "runtime-tokio-rustls"] }
