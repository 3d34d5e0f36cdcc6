[package]
name = "askbend"
version = "0.1.0"
edition = "2021"
publish = false

[dependencies]
actix-cors = "=0.6.5"
actix-web = { version = "=4.18.1", default-features = false, features = ["macros"] }
anyhow = "=1.0.104"
chrono = { version = "=0.4.38", default-features = false, features = ["clock"] }
clap = { version = "=4.6.7", features = ["derive"] }
comrak = { version = "=0.18.0", default-features = false }
databend-driver = { version = "=0.20.1", default-features = false }
env_logger = { version = "=0.10.2", default-features = false }
log = "=0.4.34"
octocrab = { version = "=0.40.0", default-features = false, features = ["default-client", "rustls"] }
quote = "=1.0.47"
regex = "=1.13.1"
serde = { version = "=1.0.229", features = ["derive"] }
serfig = "=0.1.0"
syn = { version = "=2.0.119", features = ["full"] }
tokio = { version = "=1.54.1", features = ["macros", "rt-multi-thread", "time"] }
tokio-stream = "=0.1.19"
url = "=2.5.8"
walkdir = "=2.5.0"
