[package]
name = "nightly_resolver"
version = "0.1.0"
edition = "2021"
publish = false

[dependencies]
anyhow = "1"
cairo-toolchain-xtasks = "*"
clap = { version = "4", features = ["derive"] }
semver = "1"
time = "0.3"
