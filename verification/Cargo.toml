[package]
name = "netlabs"
version = "0.1.0"
edition = "2021"
publish = false

[dependencies]
anyhow = "1"
base64 = "*"
chrono = "0.4"
clap = { version = "4", features = ["derive"] }
httparse = "1"
rand = "*"
toml = "*"
serde = { version = "1", features = ["derive"] }
serde_json = "1"
actix-web = { version = "4", default-features = false, features = ["macros"] }
tokio = { version = "1", features = ["macros", "rt-multi-thread", "net", "sync", "time"] }
hyper = { version = "1", features = ["server", "http1"] }
hyper-util = { version = "*", features = ["tokio"] }
http = "1"
http-body-util = "*"
futures-util = "*"
reqwest = { version = "*", default-features = false, features = ["stream"] }
lettre = { version = "*", default-features = false, features = ["builder", "smtp-transport", "rustls-tls"] }
socket2 = { version = "*", features = ["all"] }
dns-lookup = "*"
env_logger = { version = "*", default-features = false }
log = "*"
