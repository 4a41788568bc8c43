[package]
name = "rememberall"
version = "0.1.0"
edition = "2021"
publish = false

[dependencies]
rust-stemmers = "*"
rust-crypto = "=0.2.36"
sha2 = "=0.11.0"
glob = "=0.3.4"
colored = "=3.1.1"
docopt = "=1.1.1"
serde = { version = "=1.0.229", features = ["derive"] }
