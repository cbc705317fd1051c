[package]
name = "uscope"
version = "0.3.0"
edition = "2021"
publish = false

[dependencies]
byteorder = "1.5"
lz4_flex = "0.11"
flate2 = "1"
clap = { version = "4.5", features = ["derive"] }
serde = { version = "1", features = ["derive"] }
serde_json = "1"
rand = "0.8"
