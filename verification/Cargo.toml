[package]
name = "matdb"
version = "0.1.0"
edition = "2021"
publish = false

[dependencies]
byteorder = "1"
zstd = "0.13"
serde = { version = "1", features = ["derive"] }
serde_json = "1"
log = "0.4"
stderrlog = "*"
chrono = "0.4"
flate2 = "1"
glob = "0.3"
