[package]
name = "unpack"
version = "0.1.0"
edition = "2021"

[dependencies]
hex = "=0.4.3"
thiserror = "=2.0.21"
