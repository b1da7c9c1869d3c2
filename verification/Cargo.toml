[package]
name = "ycm"
version = "0.1.0"
edition = "2021"
publish = false

[dependencies]
chrono = "*"
clap = { version = "*", features = ["derive"] }
clap-verbosity-flag = "*"
directories = "*"
eyre = "*"
inquire = "*"
log = "*"
pretty_env_logger = "*"
