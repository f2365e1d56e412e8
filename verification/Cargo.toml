[package]
name = "libmwemu"
version = "0.1.0"
edition = "2021"
publish = false

[dependencies]
md5 = "=0.8.1"
iced-x86 = "=1.22.0"
serde = { version = "=1.0.229", features = ["derive"] }
log = "=0.4.35"
slab = "=0.4.12"
ahash = "=0.8.12"
chrono = { version = "0.4", default-features = false, features = ["now"] }
