[package]
name = "loc_counter"
version = "0.1.0"
edition = "2021"
publish = false

[dependencies]
anyhow = "1"
bytecount = "0.6"
clap = { version = "4", features = ["derive"] }
ignore = "0.4"
memchr = "2"
