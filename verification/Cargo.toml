[package]
name = "todolist"
version = "0.1.0"
edition = "2021"
publish = false

[dependencies]
ansi_term = "0.12"
docopt = "1.1"
serde = { version = "1", features = ["derive"] }
log = "0.4"
env_logger = "0.11"
