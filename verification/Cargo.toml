[package]
name = "hecs"
version = "0.1.0"
edition = "2021"
publish = false

[dependencies]
downcast-rs = "1.2"
fxhash = "0.2.1"
