[package]
name = "membership_transcript"
version = "0.1.0"
edition = "2021"
publish = false

[dependencies]
merlin = "3.0.0"
rug = "1.30.0"
