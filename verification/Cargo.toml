[package]
name = "apecrunch"
version = "0.1.0"
edition = "2021"
publish = false

[dependencies]
fraction = "*"
serde = { version = "1", features = ["derive"] }
bincode = "1"
lz4_flex = "*"
uuid = { version = "1", features = ["v4", "serde"] }
toml = "*"
directories = "*"
clap = { version = "4", features = ["derive"] }
termcolor = "*"
