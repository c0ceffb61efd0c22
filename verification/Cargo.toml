[package]
name = "audio_authoring"
version = "0.1.0"
edition = "2021"
publish = false

[dependencies]
symphonia = { version = "*", features = ["mp3"] }
cpal = "*"
