[package]
name = "ppsmc"
version = "0.1.0"
edition = "2021"
publish = false

[dependencies]
sylvan-sys = "*"
logic-form = "*"
ordered-float = "*"
clap = { version = "4", features = ["derive"] }
tokio = { version = "1", features = ["sync"] }
futures = "0.3"
once_cell = "1"
