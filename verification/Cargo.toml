[package]
name = "fastmatmult"
version = "0.1.0"
edition = "2021"
publish = false

[dependencies]
bincode = "1"
failure = "0.1"
faster = "*"
itertools = "0.7"
rand = "0.5"
rayon = "1"
serde = { version = "1", features = ["derive"] }
structopt = "0.2"
typenum = "1"
