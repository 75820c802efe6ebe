[package]
name = "fastwebsockets"
version = "0.1.0"
edition = "2021"
publish = false

[dependencies]
base64 = "0.22"
bytes = "1"
flate2 = "1"
futures-lite = "2"
http-body-util = "0.1"
hyper = { version = "1", features = ["client", "server", "http1"] }
hyper-util = { version = "0.1", features = ["tokio"] }
mio = { version = "1", features = ["net", "os-poll"] }
pin-project = "1"
rand = "0.8"
sha1 = "0.10"
simdutf8 = "0.1"
slab = "0.4"
thiserror = "1"
tokio = { version = "1", features = ["full"] }
utf-8 = "0.7"
