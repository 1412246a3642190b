[package]
name = "mtproto_transport"
version = "0.1.0"
edition = "2021"
publish = false

[dependencies]
aes = "=0.8.4"
ctr = "=0.9.2"
getrandom = "=0.2.17"

[dev-dependencies]
crc32fast = "=1.5.3"
