[package]
name = "auction"
version = "0.1.0"
edition = "2021"
publish = false

[dependencies]
ndarray = "*"
num-complex = "*"
reqwest = { version = "*", default-features = false, features = ["json"] }
roots = "*"
rustfft = "*"
serde = { version = "*", features = ["derive"] }
serde_json = "*"
statrs = "*"
