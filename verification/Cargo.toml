[package]
name = "balas"
version = "0.1.0"
edition = "2021"
publish = false

[dependencies]
lp_parser_rs = "*"
anyhow = "*"
argh = "*"
serde = { version = "*", features = ["derive"] }
serde_json = "*"
thiserror = "*"
