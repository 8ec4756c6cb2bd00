[package]
name = "roasort"
version = "0.1.0"
edition = "2021"
publish = false

[dependencies]
anyhow = "1"
clap = { version = "4", features = ["derive"] }
clap-verbosity-flag = "*"
generic-ip = "*"
log = "0.4"
num-traits = "0.2"
rasn = "*"
rasn-cms = "*"
simple_logger = "*"
