[package]
name = "routeweaver"
version = "0.1.0"
edition = "2021"
publish = false

[dependencies]
snow = "*"
lz4_flex = "*"
rangemap = "*"
ringbuffer = "*"
rand = "*"
tokio = { version = "*", features = ["full"] }
tokio-util = { version = "*", features = ["codec"] }
bytes = "*"
futures-util = "*"
scc = "*"
clap = { version = "*", features = ["derive"] }
serde = { version = "*", features = ["derive"] }
toml = "*"
tracing = "*"
tracing-subscriber = "*"
