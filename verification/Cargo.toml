[package]
name = "tayb"
version = "0.1.0"
edition = "2021"
publish = false

[dependencies]
tmi = "*"
tokio = { version = "*", features = ["macros", "rt-multi-thread", "signal"] }
