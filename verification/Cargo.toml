[package]
name = "psbt_batch"
version = "0.1.0"
edition = "2021"
publish = false

[dependencies]
bdk_wallet = "=3.2.0"
bitcoincore-rpc = "=0.19.0"

[dev-dependencies]
hex = "=0.4.3"
