[package]
name = "pgtoken"
version = "0.1.0"
edition = "2021"
publish = false

[dependencies]
stream-vbyte = "=0.4.1"
sha2 = "=0.11.1"
constriction = "=0.5.0"
tiktoken-rs = "=0.12.1"
memmap2 = "=0.9.12"
