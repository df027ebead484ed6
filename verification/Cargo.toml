[package]
name = "yaml_filter"
version = "0.1.0"
edition = "2021"
publish = false

[dependencies]
atty = "0.2"
clap = { version = "4", features = ["derive"] }
syntect = { version = "5", default-features = false, features = ["default-fancy"] }
termcolor = "1"
yaml-rust = "0.4"
