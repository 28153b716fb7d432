[package]
name = "ice_finder"
version = "0.1.0"
edition = "2021"
publish = false

[dependencies]
cloud_terrastodon_user_input = "=0.37.0"
color-eyre = "=0.6.5"
serde = { version = "=1.0.229", features = ["derive"] }
serde_json = "=1.0.154"
tempfile = "=3.27.0"
tokio = { version = "=1.54.1", features = ["rt-multi-thread"] }
walkdir = "=2.5.0"

[dev-dependencies]
regex = "=1.13.1"
