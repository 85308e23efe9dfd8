[package]
name = "easy_deploy"
version = "0.1.0"
edition = "2021"
publish = false

[dependencies]
chrono = "0.4"
structopt = "0.3"
prettytable-rs = "0.10"
