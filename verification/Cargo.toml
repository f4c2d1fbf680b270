[package]
name = "pass2csv"
version = "0.1.0"
edition = "2021"
publish = false

[dependencies]
anyhow = "1"
csv = "1"
serde = "1"
structopt = "0.3"
thiserror = "1"
