[package]
name = "udpflow"
version = "0.1.0"
edition = "2021"
publish = false

[dependencies]
tokio = { version = "=1.53.2", features = ["net", "time", "sync", "io-util"] }
socket2 = { version = "=0.5.10", features = ["all"] }
