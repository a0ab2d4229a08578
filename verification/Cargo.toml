[package]
name = "svt_scraper"
version = "0.1.0"
edition = "2021"
publish = false

[dependencies]
async-trait = "*"
clap = "*"
futures = "*"
lazy_static = "*"
log = "*"
regex = "*"
reqwest = { version = "*", default-features = false, features = ["json"] }
serde = { version = "*", features = ["derive"] }
serde_json = "*"
thiserror = "*"
tokio = { version = "*", features = ["rt-multi-thread", "macros", "sync", "time"] }
tokio-stream = "*"
