[package]
name = "acs_explorer"
version = "0.5.0"
edition = "2021"
publish = false

[dependencies]
json = "=0.12.4"
reqwest = { version = "=0.9.24", default-features = false, features = ["rustls-tls"] }
structopt = "=0.3.26"
error-chain = "0.12"
