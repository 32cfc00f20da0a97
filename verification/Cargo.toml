[package]
name = "globwatcher"
version = "0.1.0"
edition = "2021"
publish = false

[dependencies]
anyhow = "*"
chrono = { version = "*", features = ["serde"] }
futures = "*"
glob-match = "=0.2.1"
lazy_static = "*"
log = "*"
notify = "*"
reqwest = { version = "*", default-features = false, features = ["json"] }
serde = { version = "*", features = ["derive"] }
