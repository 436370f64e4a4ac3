[package]
name = "waveform"
version = "0.1.0"
edition = "2021"
publish = false

[dependencies]
base64 = "*"
symphonia = { version = "*", features = ["mp3", "aac"] }
