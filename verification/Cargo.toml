[package]
name = "secure_aggregation"
version = "0.1.0"
edition = "2021"
publish = false

[dependencies]
aes-gcm = "0.8"
p256 = { version = "0.6", features = ["ecdsa", "ecdh"] }
rand = "0.7"
rand_core = { version = "0.5", features = ["getrandom"] }
num-bigint-dig = "0.8"
zmq = "0.9"
anyhow = "1"
polynomials = "*"
