[package]
name = "git_config_env"
version = "0.1.0"
edition = "2021"
publish = false

[dependencies]
itertools = "0.14"

[dev-dependencies]
winnow = "0.7"
