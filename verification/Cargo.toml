[package]
name = "amescii"
version = "0.1.0"
edition = "2021"
publish = false

[dependencies]
anyhow = "1"
async-trait = "0.1"
bytes = "1"
chrono = { version = "0.4", default-features = false, features = ["clock"] }
crossterm = "0.28"
directories = "5"
futures = "0.3"
geozero = { version = "0.14", default-features = false, features = ["with-mvt"] }
heapless = "0.8"
image = { version = "0.25", default-features = false, features = ["png"] }
libm = "0.2"
ratatui = "0.28"
reqwest = { version = "0.12", default-features = false, features = ["json", "rustls-tls"] }
serde = { version = "1", features = ["derive"] }
serde_json = "1"
thiserror = "1"
tokio = { version = "1", features = ["rt-multi-thread", "macros", "sync", "time", "fs"] }
toml = "0.8"
unicode-width = "0.1"
