[package]
name = "wav_writer"
version = "0.1.0"
edition = "2021"

[dependencies]
cpal = "0.14"
