[package]
name = "chain_proxy"
version = "0.1.0"
edition = "2021"
publish = false

[dependencies]
anyhow = "1"
async-recursion = "1"
async-trait = "0.1"
bytes = "1"
clap = { version = "4", features = ["derive"] }
fast-socks5 = "0.9"
futures = "0.3"
hyper = { version = "0.14", features = ["full"] }
lazy_static = "1"
log = "0.4"
log4rs = "1"
serde = { version = "1", features = ["derive"] }
serde_json = "1"
tokio = { version = "1", features = ["full"] }
warp = "0.3"
wildmatch = "2"
zeroize = { version = "1", features = ["derive"] }
