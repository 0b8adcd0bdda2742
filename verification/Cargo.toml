[package]
name = "ordvec"
version = "0.1.0"
edition = "2021"
publish = false

[dependencies]
rayon = "1"
serde = { version = "1", features = ["derive"] }

[dev-dependencies]
rand = "*"
rand_chacha = "*"
