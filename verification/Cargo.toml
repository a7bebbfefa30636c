[package]
name = "flatcitybuf"
version = "0.1.0"
edition = "2021"
publish = false

[dependencies]
byteorder = "1"
flatbuffers = "*"
serde_json = "1"
http-range-client = "*"
tracing = "*"

[dev-dependencies]
rand = "0.8"
