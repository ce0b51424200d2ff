[package]
name = "bumv"
version = "0.1.0"
edition = "2021"
publish = false

[dependencies]
anyhow = "1"
chrono = "0.4"
ignore = "0.4"
petgraph = "0.6"
rprompt = "2"
structopt = "0.3"
tempfile = "3"
