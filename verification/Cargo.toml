[package]
name = "billion_rows"
version = "0.1.0"
edition = "2021"
publish = false

[dependencies]
fxhash = "0.2.1"
memmap2 = "0.9"
