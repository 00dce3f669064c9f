[package]
name = "stream_autodj"
version = "0.1.0"
edition = "2021"
publish = false

[dependencies]
rand = "=0.7.3"
clap = "=2.34.0"
rodio = "=0.11.0"
zip = { version = "=0.5.13", default-features = false, features = ["deflate"] }

[dev-dependencies]
regex = "1"
