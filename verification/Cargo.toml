[package]
name = "cacheclip"
version = "0.1.0"
edition = "2021"
publish = false

[dependencies]
chrono = "0.4"
fuzzy-matcher = "0.3"
clap = { version = "4", features = ["derive"] }
clipboard = "0.5"
directories = "5"
