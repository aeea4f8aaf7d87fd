[package]
name = "whatawhat"
version = "0.1.0"
edition = "2021"
publish = false

[dependencies]
anyhow = "*"
chrono = "*"
chrono-english = "*"
clap = { version = "*", features = ["derive"] }
daemonize = "*"
fs4 = { version = "*", features = ["tokio"] }
futures = "*"
sysinfo = "*"
tokio = { version = "*", features = ["full"] }
tokio-util = "*"
tracing = "*"
tracing-appender = "*"
tracing-subscriber = { version = "*", features = ["env-filter"] }

[dev-dependencies]
serde_json = "*"
