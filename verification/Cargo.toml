[package]
name = "wap"
version = "0.1.0"
edition = "2021"
publish = false

[dependencies]
blowfish = "=0.9.1"
byteorder = "1"
fxhash = "0.2"
image = { version = "*", default-features = false }
rust-ini = "*"
libflate = "*"
pcx = "0.2"
zero = "0.1"
