[package]
name = "crenel"
version = "0.1.0"
edition = "2021"
publish = false

[dependencies]
arc-swap = "1"
async-trait = "0.1"
bytes = "1"
httpdate = "1"
pingora = { version = "*", default-features = false }
rustix = { version = "1", features = ["fs"] }
tokio = { version = "1", features = ["rt", "sync", "time"] }
