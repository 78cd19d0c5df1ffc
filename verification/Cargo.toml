[package]
name = "transit_model"
version = "0.1.0"
edition = "2021"
publish = false

[dependencies]
failure = "0.1"
structopt = "0.3"
