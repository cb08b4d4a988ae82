[package]
name = "jigsaw"
version = "0.1.0"
edition = "2021"
publish = false

[dependencies]
bellframe = "*"
index_vec = "*"
itertools = "*"
serde = { version = "1", features = ["derive"] }
serde_json = "1"
