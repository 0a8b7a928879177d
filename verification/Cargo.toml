[package]
name = "bdk_coin_select"
version = "0.1.0"
edition = "2021"
publish = false

[dev-dependencies]
proptest = "=1.8.0"
