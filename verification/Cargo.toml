[package]
name = "evm-deployment-info"
version = "0.1.1"
edition = "2021"
publish = false

[dependencies]
clap = { version = "4", features = ["derive"] }
libc = "0.2"
prettytable-rs = "0.10"
regex = "1"
reqwest = { version = "0.12", features = ["blocking", "json"] }
serde_json = "1"
