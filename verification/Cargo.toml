[package]
name = "fusedav_rs"
version = "0.1.0"
edition = "2021"
publish = false

[dependencies]
chrono = "=0.4.45"
clap = { version = "=4.6.7", features = ["derive"] }
fuser = { version = "=0.14.0", default-features = false }
libc = "=0.2.191"
reqwest_dav = "=0.3.3"
tokio = { version = "=1.54.1", features = ["full"] }
urlencoding = "=2.1.3"
uuid = { version = "=1.29.0", features = ["v4"] }

[dev-dependencies]
rand = "=0.8.8"
