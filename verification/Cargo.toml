[package]
name = "ferrite"
version = "0.1.0"
edition = "2021"
publish = false

[dependencies]
clap = { version = "=4.6.7", features = ["derive"] }
crossbeam-channel = "=0.5.17"
jiff = { version = "=0.2.39", features = ["serde"] }
nix = { version = "=0.30.1", features = ["mman", "user", "resource", "fs", "signal"] }
owo-colors = { version = "=4.4.0", features = ["supports-colors"] }
rand_xoshiro = "=0.8.1"
rayon = "=1.12.0"
serde = { version = "=1.0.229", features = ["derive"] }
serde_json = "=1.0.154"
snafu = "=0.8.9"
supports-color = "=3.0.2"
tracing = "=0.1.44"
tracing-subscriber = { version = "=0.3.23", features = ["env-filter"] }
