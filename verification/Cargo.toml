[package]
name = "git_identity_manager"
version = "0.1.0"
edition = "2021"
publish = false

[dependencies]
dirs = "*"

[dev-dependencies]
toml = "*"
