[package]
name = "puzzle_tools"
version = "0.1.0"
edition = "2021"
publish = false

[dependencies]
nom = "7"
rand = "0.8"
rayon = "1"
serde_json = "1"
structopt = "0.3"
