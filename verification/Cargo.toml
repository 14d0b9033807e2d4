[package]
name = "swansong"
version = "0.3.1"
edition = "2021"
publish = false

[dependencies]
event-listener = "5.3"
futures-core = "0.3"
futures-io = "0.3"
futures-lite = "2.3"
log = "0.4"
pin-project-lite = "0.2.14"
tokio = { version = "1", default-features = false, features = ["io-util"] }
