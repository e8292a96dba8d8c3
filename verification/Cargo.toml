[package]
name = "dpcore"
version = "0.1.0"
edition = "2021"
publish = false

[dependencies]
serde_json = "1"
inflate = "0.4"
image = { version = "0.22", default-features = false, features = ["png_codec"] }
clap = "2.33"
tracing = "0.1"
tracing-subscriber = "0.3"
