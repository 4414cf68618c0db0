[package]
name = "gpfdist_rs"
version = "0.1.0"
edition = "2021"
publish = false

[dependencies]
arrow = { version = "=55.2.0", default-features = false }
arrow-csv = "=55.2.0"
async-stream = "0.3"
bytecount = "=0.6.9"
bytes = "=1.12.1"
futures = "0.3"
memchr = "=2.8.3"
once_cell = "1"
tokio = { version = "1", features = ["full"] }
