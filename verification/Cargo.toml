[package]
name = "hourglass"
version = "0.1.0"
edition = "2021"
publish = false

[dependencies]
async-channel = "2"
async-trait = "0.1"
env_logger = "0.10"
image = "0.24"
log = "0.4"
thiserror = "1"
tokio = { version = "1", features = ["rt-multi-thread", "macros", "sync", "time"] }
winit = "0.28"
