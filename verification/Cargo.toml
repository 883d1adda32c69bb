[package]
name = "gliphoread"
version = "0.1.0"
edition = "2021"
publish = false

[dependencies]
anyhow = "=1.0.104"
clap = { version = "=4.6.7", features = ["derive"] }
serde = { version = "=1.0.229", features = ["derive"] }
serde_json = "=1.0.154"
image = { version = "=0.25.10", default-features = false, features = ["png"] }
dioxus = "=0.7.10"
rfd = { version = "=0.17.2", default-features = false, features = ["xdg-portal"] }
