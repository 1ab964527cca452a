[package]
name = "ferry"
version = "0.1.0"
edition = "2021"
publish = false

[dependencies]
anyhow = "*"
async-trait = "*"
clap = { version = "*", features = ["derive"] }
comfy-table = "*"
log = "*"
mdns-sd = "*"
names = "*"
quinn = "*"
rcgen = "*"
rustls = "*"
