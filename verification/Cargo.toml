[package]
name = "openmediatransport"
version = "0.1.0"
edition = "2021"
publish = false

[dependencies]
roxmltree = "=0.21.2"
bytes = "=1.12.1"
thiserror = "=2.0.21"
tracing = "=0.1.44"
socket2 = { version = "=0.6.5", features = ["all"] }
mdns-sd = "=0.21.7"
tokio = { version = "=1.54.1", features = ["rt-multi-thread", "time", "macros", "net", "io-util", "sync"] }
