[package]
name = "cobill"
version = "0.1.0"
edition = "2021"
publish = false

[dependencies]
uuid = { version = "1", features = ["v4"] }
strip-ansi-escapes = "*"
serde = { version = "1", features = ["derive"] }
serde_yaml = "*"
dirs = "*"
thiserror = "*"
mingling = "*"
