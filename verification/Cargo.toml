[package]
name = "modal_edit"
version = "0.1.0"
edition = "2021"
publish = false

[dependencies]
clap = { version = "*", features = ["derive"] }
color-eyre = "*"
crossterm = "*"
tokio = { version = "*", features = ["rt-multi-thread", "time"] }
tracing-subscriber = { version = "*", features = ["env-filter"] }
