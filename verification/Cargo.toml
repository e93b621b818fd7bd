[package]
name = "pic-killer"
version = "0.1.0"
edition = "2021"
publish = false

[dependencies]
anyhow = "1"
chrono = "0.4"
clap = { version = "4", features = ["derive"] }
clap_complete = "4"
clap_mangen = "0.2"
filetime = "0.2"
indicatif = "0.17"
little_exif = "0.6"
quick-xml = "0.37"
rayon = "1"
walkdir = "2"
