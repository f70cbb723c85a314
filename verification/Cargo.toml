[package]
name = "asset_bundle_codec"
version = "0.1.0"
edition = "2021"
publish = false

[dependencies]
aes = "0.8"
bs58 = "0.5"
anyhow = "1"
tar = "0.4"
