[package]
name = "autorun"
version = "0.1.0"
edition = "2021"
publish = false

[dependencies]
ansi_term = "*"
serde = { version = "*", features = ["derive"] }
snafu = "*"
structopt = "*"
tempfile = "*"
toml = "*"
