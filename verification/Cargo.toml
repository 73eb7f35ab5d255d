[package]
name = "gmcl_speech"
version = "0.1.0"
edition = "2021"
publish = false

[dependencies]
anyhow = "1"
cpal = "0.15"
crossbeam-channel = "=0.5.17"
gmod = { version = "=16.0.2", default-features = false }
once_cell = "1"
parking_lot = "0.12"
whisper-rs = "0.10"
