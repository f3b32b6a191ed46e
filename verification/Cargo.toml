[package]
name = "hyprly"
version = "0.1.0"
edition = "2021"
publish = false

[dependencies]
anyhow = "1"
axum = { version = "*", features = ["ws"] }
clap = { version = "4", features = ["derive"] }
dirs = "*"
futures-util = "0.3"
gtk4 = "*"
libadwaita = "*"
gtk4-layer-shell = "*"
hound = "3"
reqwest = { version = "*", default-features = false, features = ["json", "stream", "rustls-tls"] }
serde = { version = "1", features = ["derive"] }
serde_json = "1"
tokio = { version = "1", features = ["full"] }
tokio-util = "*"
toml = "*"
