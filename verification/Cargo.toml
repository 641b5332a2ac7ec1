[package]
name = "lyssa"
version = "0.1.0"
edition = "2021"
publish = false

[dependencies]
serde_json = "*"
clap = { version = "*", features = ["derive"] }
colored = "*"
chrono = "*"
indicatif = "*"
libc = "*"
log = "*"
disktest-lib = "*"
