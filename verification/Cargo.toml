[package]
name = "yarw_core"
version = "0.1.0"
edition = "2021"
publish = false

[dependencies]
uuid = { version = "*", features = ["v4"] }
sled = "*"
directories = "*"
clap = { version = "*", features = ["derive"] }
dialoguer = "*"
