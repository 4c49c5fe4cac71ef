[package]
name = "nyne"
version = "0.1.0"
edition = "2021"
publish = false

[dependencies]
convert_case = "=0.12.0"
jiff = "=0.2.39"
similar = "=2.7.0"
rustix = { version = "=1.1.6", features = ["mount"] }
slab = "=0.4.12"
toml = "=1.1.8"
serde_json = "=1.0.154"
ignore = "=0.4.34"
clap = { version = "4", features = ["derive"] }
serde = { version = "1", features = ["derive"] }
directories = "*"
