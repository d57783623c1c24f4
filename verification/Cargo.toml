[package]
name = "zomb8"
version = "0.1.0"
edition = "2021"
publish = false

[dependencies]
anyhow = "=1.0.104"
bincode = "=1.3.3"
glam = { version = "=0.27.0", features = ["serde"] }
hecs = "=0.11.2"
kira = "=0.10.8"
macroquad = "=0.4.16"
rand = "=0.8.8"
serde = { version = "=1.0.229", features = ["derive"] }
tokio = { version = "=1.54.1", features = ["full"] }
toml = "=0.8.23"
