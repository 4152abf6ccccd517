[package]
name = "expandenv"
version = "0.1.0"
edition = "2021"
publish = false

[dependencies]
directories-next = "2"
thiserror = "2"
