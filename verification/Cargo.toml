[package]
name = "mta_core"
version = "0.1.0"
edition = "2021"
publish = false

[dependencies]
anyhow = "1"
clap = { version = "4", features = ["derive"] }
gethostname = "0.4"
humantime = "2"
prometheus = { version = "0.13", default-features = false }
rand = "0.8"
reqwest = { version = "0.11", default-features = false, features = ["json"] }
ringbuf = "0.3"
serde = { version = "1", features = ["derive"] }
serde_json = "1"
tokio = { version = "1", features = ["macros", "net", "rt-multi-thread", "sync", "time"] }
