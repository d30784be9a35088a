[package]
name = "typst-run"
version = "0.1.0"
edition = "2021"

[dependencies]
clap = { version = "4", features = ["derive"] }
notify = "6.1"
notify-debouncer-mini = "0.4"
