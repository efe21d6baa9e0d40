[package]
name = "files_to_prompt"
version = "0.1.0"
edition = "2021"
publish = false

[dependencies]
clap = { version = "=4.6.7", features = ["derive"] }
globset = "=0.4.20"
ignore = "=0.4.33"

[dev-dependencies]
tempfile = "3"
