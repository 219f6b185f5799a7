[package]
name = "connect_four"
version = "0.1.0"
edition = "2021"
publish = false

[dependencies]
array2d = "0.3"
serde = { version = "1", features = ["derive"] }
rand = "0.8"
ordered-float = "4"
