[package]
name = "reassembly"
version = "0.1.0"
edition = "2021"
publish = false

[dependencies]
futures = "*"
log = "*"
tokio = { version = "*", default-features = false, features = ["net", "rt", "time", "io-util"] }
