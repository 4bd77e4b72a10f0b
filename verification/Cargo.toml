[package]
name = "airpod_alfred_connector"
version = "0.1.0"
edition = "2021"
publish = false

[dependencies]
json = "*"
clap = { version = "*", features = ["derive"] }
clap-verbosity-flag = "*"
env_logger = "*"
log = "*"
