[package]
name = "mk_landscape"
version = "0.1.0"
edition = "2021"
publish = false

[dependencies]
itertools = "0.10"
rand_chacha = "0.3"
ron = "0.6"
serde = { version = "1.0", features = ["derive"] }
structopt = "0.3"
