[package]
name = "liscaf"
version = "0.1.0"
edition = "2021"
publish = false

[dependencies]
anyhow = "1"
clap = { version = "4", features = ["derive", "env"] }
convert_case = "0.6"
inquire = "0.7"
tempfile = "3"
ureq = "2"
walkdir = "2"
