[package]
name = "mdbook_directives"
version = "0.1.0"
edition = "2021"
publish = false

[dependencies]
pulldown-cmark = "=0.13.4"
htmlentity = "=1.3.2"
mdbook-preprocessor = "*"
serde = { version = "*", features = ["derive"] }
serde_json = "*"
toml = "*"
anyhow = "*"
semver = "*"
clap = { version = "*", features = ["derive"] }
