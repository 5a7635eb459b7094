[package]
name = "velox_graph"
version = "4.0.0"
edition = "2021"
publish = false

[dependencies]
postcard = { version = "1", features = ["use-std"] }
serde = { version = "1", features = ["derive"] }
thiserror = "2"
toml = "*"

[dev-dependencies]
rand = "0.9"
