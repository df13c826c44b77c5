[package]
name = "hbar_core"
version = "0.1.0"
edition = "2021"
publish = false

[dependencies]
encoding = "0.2"
image = { version = "0.24", default-features = false, features = ["png"] }
structopt = "0.3"
strum = "0.24"
strum_macros = "0.24"
