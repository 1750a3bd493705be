[package]
name = "chd2iso_fuse"
version = "0.1.0"
edition = "2021"
publish = false

[dependencies]
anyhow = "=1.0.104"
chd = "=0.3.5"
clap = { version = "=4.6.7", features = ["derive"] }
fuser = { version = "=0.17.0", default-features = false }
libc = "=0.2.191"
lru = "=0.19.0"
tracing = "=0.1.44"
tracing-subscriber = { version = "=0.3.23", features = ["env-filter"] }
