[package]
name = "ren"
version = "0.1.0"
edition = "2021"
publish = false

[dependencies]
clap = { version = "4", features = ["derive"] }
glob = "0.3"
levenshtein = "1"
owo-colors = "4"
rayon = "1"
