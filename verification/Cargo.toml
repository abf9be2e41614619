[package]
name = "kaminsky"
version = "0.1.0"
edition = "2021"
publish = false

[dependencies]
rand = "0.8"
pnet = "0.34"
structopt = "0.3"
