[package]
name = "nand_scan"
version = "0.1.0"
edition = "2021"
publish = false

[dependencies]
serde_json = "1"
semver = "1"
clap = { version = "4", features = ["derive"] }
