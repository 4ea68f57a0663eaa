[package]
name = "liars_bars"
version = "0.1.0"
edition = "2021"
publish = false

[dependencies]
anchor-lang = { version = "=0.31.2", features = ["init-if-needed"] }
inco-lightning = "=0.1.4"
