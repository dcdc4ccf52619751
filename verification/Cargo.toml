[package]
name = "server"
version = "0.1.0"
edition = "2021"
publish = false

[dependencies]
stv-rs = "=0.5.1"
num = "=0.4.3"
serde = { version = "=1.0.229", features = ["derive"] }
serde_json = "=1.0.154"
serde_yaml = "0.9"
axum = "=0.8.9"
tokio = { version = "=1.54.1", features = ["macros", "rt-multi-thread", "net"] }
chrono = { version = "=0.4.45", features = ["serde"] }
lettre = { version = "=0.11.23", default-features = false, features = ["builder", "smtp-transport", "rustls-tls"] }
zip = { version = "=9.2.2", default-features = false, features = ["deflate"] }
tower-http = { version = "=0.7.1", features = ["cors", "trace"] }
tracing = "=0.1.44"
tracing-subscriber = { version = "=0.3.23", features = ["env-filter"] }
