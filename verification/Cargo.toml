[package]
name = "ddb_toolbox"
version = "0.1.0"
edition = "2021"
publish = false

[dependencies]
memchr = "2"
serde = { version = "1", features = ["derive"] }
serde_yaml = "0.9"
anyhow = "1"
byteorder = "1"
hound = "3"
zip = { version = "*", default-features = false }
iced = "*"
rfd = "*"
