[package]
name = "kinetix"
version = "0.1.0"
edition = "2021"
publish = false

[dependencies]
anyhow = "1"
async-trait = "0.1"
clap = { version = "4", features = ["derive"] }
libc = "0.2"
log = "0.4"
serde_json = "1"
simplelog = "0.12"
tokio = { version = "1", features = ["rt-multi-thread", "macros", "sync", "signal", "time"] }
x11rb = { version = "0.13", features = ["shape"] }
zbus = { version = "5", default-features = false, features = ["tokio"] }
