[package]
name = "bos_loader"
version = "0.1.0"
edition = "2021"
publish = false

[dependencies]
async-recursion = "=1.2.0"
clap = { version = "=4.6.7", features = ["derive"] }
config = { version = "=0.15.27" }
serde = { version = "=1.0.229", features = ["derive"] }
serde_json = "=1.0.151"
tokio = { version = "=1.53.2", features = ["full"] }
warp = { version = "=0.4.3", features = ["server"] }
