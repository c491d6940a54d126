[package]
name = "witransfer"
version = "0.1.0"
edition = "2021"
publish = false

[dependencies]
clap = { version = "*", features = ["derive"] }
crossterm = "*"
local-ip-address = "*"
num_cpus = "*"
whoami = "*"
