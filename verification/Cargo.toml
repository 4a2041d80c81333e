[package]
name = "mysolver"
version = "0.1.0"
edition = "2021"
publish = false

[dependencies]
bzip2 = "*"
clap = { version = "4", features = ["derive"] }
console = "*"
flate2 = "1"
hashbrown = "*"
humantime = "2"
indicatif = "*"
proc-macro2 = "1"
quote = "1"
serde = { version = "1", features = ["derive"] }
serde_json = "1"
syn = { version = "2", features = ["full"] }
tempfile = "3"
walkdir = "2"
