[package]
name = "simplefs"
version = "0.1.0"
edition = "2021"
publish = false

[dependencies]
thiserror = "1"

[dev-dependencies]
zerocopy = "0.7"
