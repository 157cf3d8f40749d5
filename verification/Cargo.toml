[package]
name = "iksemel"
version = "0.1.0"
edition = "2021"
publish = false

[dependencies]
clap = { version = "4", features = ["derive"] }
hex = "0.4"
rpassword = "7"
sha1 = "0.10"
thiserror = "1"
