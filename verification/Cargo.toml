[package]
name = "gl-client"
version = "0.1.0"
edition = "2021"
publish = false

[dependencies]
anyhow = "1"
bitcoin = "*"
hex = "0.4"
log = "0.4"
once_cell = "1"
prost = "*"
serde = { version = "1", features = ["derive"] }
serde_json = "1"
tokio = { version = "1", features = ["rt-multi-thread"] }
vls-core = "*"
vls-persist = "*"
