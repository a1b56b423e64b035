[package]
name = "hydra_autoscaler"
version = "0.1.0"
edition = "2021"
publish = false

[dependencies]
clap = { version = "*", features = ["derive"] }
eyre = "*"
reqwest = { version = "*", default-features = false, features = ["json"] }
serde = { version = "*", features = ["derive"] }
serde_json = "*"
time = { version = "*", features = ["serde-well-known"] }
tokio = { version = "*", features = ["macros", "rt-multi-thread"] }
