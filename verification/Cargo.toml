[package]
name = "fire_scope"
version = "0.1.0"
edition = "2021"
publish = false

[dependencies]
ipnet = "2"
clap = { version = "4", features = ["derive"] }
reqwest = { version = "0.12", default-features = false, features = ["rustls-tls"] }
tokio = { version = "1", features = ["full"] }
futures = "0.3"
serde = { version = "1", features = ["derive"] }
serde_json = "1"
rand = "0.9"
chrono = "0.4"
once_cell = "1"
thiserror = "2"
rayon = "1"
routinator = "*"
