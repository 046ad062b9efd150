[package]
name = "tinychange"
version = "0.1.0"
edition = "2021"
publish = false

[dependencies]
clap = { version = "*", features = ["derive"] }
fake = "*"
fs-err = "*"
inquire = "*"
miette = "*"
normalize-line-endings = "*"
rand = { version = "*", features = ["small_rng"] }
sanitise-file-name = "*"
serde = { version = "*", features = ["derive"] }
thiserror = "*"
toml = "*"
