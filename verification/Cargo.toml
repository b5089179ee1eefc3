[package]
name = "sm4_ff1"
version = "0.1.0"
edition = "2021"
publish = false

[dependencies]
neuedu-cryptos = { version = "=0.6.3", features = ["sm4", "cbc"] }
num-bigint = "=0.5.1"
num-integer = "=0.1.47"
num-traits = "=0.2.19"
thiserror = "=2.0.21"
