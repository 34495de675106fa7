[package]
name = "geocluster"
version = "0.1.0"
edition = "2021"
publish = false

[dependencies]
anyhow = "1"
csv = "1"
itertools = "0.12"
structopt = "0.3"
strum = { version = "0.24", features = ["derive"] }
