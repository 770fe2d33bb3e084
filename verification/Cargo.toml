[package]
name = "httpproxy"
version = "0.1.0"
edition = "2021"
publish = false

[dependencies]
anyhow = "=1.0.104"
appconfig = "=0.2.1"
asynclog = "=1.1.3"
cfg-if = "=1.0.5"
compact_str = { version = "=0.10.0", features = ["serde"] }
httpserver = "=0.0.0"
hyper = { version = "0.14", features = ["client", "http1", "tcp"] }
localtime = { version = "=1.3.1", features = ["serde"] }
log = "=0.4.34"
querystring = "=1.1.0"
serde = { version = "=1.0.229", features = ["derive"] }
smallstr = "=0.3.1"
tokio = { version = "=1.54.1", features = ["rt", "rt-multi-thread", "net", "time", "macros"] }
urlencoding = "=2.1.3"
