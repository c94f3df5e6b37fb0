[package]
name = "installer"
version = "0.1.0"
edition = "2021"
publish = false

[dependencies]
zip = "0.6"
reqwest = { version = "0.11", default-features = false, features = ["blocking"] }

[dev-dependencies]
toml = "*"
