[package]
name = "brz_io"
version = "0.0.2"
edition = "2021"
publish = false

[dependencies]
brz-ds = { version = "=0.0.7", default-features = false, features = ["tokio"] }
elsa = "=1.11.2"
tokio = { version = "=1.54.1", features = ["io-util", "rt"] }
