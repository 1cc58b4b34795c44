[package]
name = "stompoxide"
version = "0.1.0"
edition = "2021"
publish = false

[dependencies]
bytes = "=1.12.1"
futures-core = "0.3"
futures-util = { version = "0.3", features = ["sink"] }
http-body-util = "0.1"
hyper = { version = "1", features = ["http1", "server"] }
hyper-tungstenite = "=0.30.0"
log = "0.4"
tokio = { version = "1", features = ["io-util", "macros", "net", "rt-multi-thread", "sync", "time"] }
tokio-stream = "0.1"
tokio-util = { version = "0.7", features = ["codec", "io"] }
tower = { version = "0.5", features = ["util"] }
uuid = { version = "=1.29.0", features = ["v4"] }
