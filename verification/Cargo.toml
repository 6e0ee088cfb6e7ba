[package]
name = "floccus_cli"
version = "0.1.0"
edition = "2021"
publish = false

[dependencies]
clap = { version = "*", features = ["derive"] }
directories = "*"
git2 = { version = "*", default-features = false }
serde = { version = "*", features = ["derive"] }
thiserror = "*"
toml = "*"
toml_edit = "*"
url = "*"
