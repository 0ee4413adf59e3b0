[package]
name = "gateway_mesh"
version = "0.1.0"
edition = "2021"
publish = false

[dependencies]
anyhow = "=1.0.104"
chirpstack_api = { version = "=4.20.0", default-features = false }
hex = "=0.4.3"
log = "=0.4.35"
once_cell = "=1.21.4"
rand = "=0.8.8"
thiserror = "=1.0.69"
tokio = { version = "=1.54.1", features = ["macros", "rt", "sync", "time"] }
