[package]
name = "elsm"
version = "0.1.0"
edition = "2021"
publish = false

[dependencies]
arrow = { version = "*", default-features = false }
crc32fast = "*"
fxhash = "*"
thiserror = "*"
