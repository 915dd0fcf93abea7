[package]
name = "csv_splitter"
version = "0.1.0"
edition = "2021"
publish = false

[dependencies]
deunicode = "1"
clap = { version = "4", features = ["derive"] }
indicatif = "0.17"
num_cpus = "1"
