[package]
name = "fri_pcs"
version = "0.1.0"
edition = "2021"
publish = false

[dependencies]
p3-field = "*"
p3-baby-bear = "*"
p3-dft = "*"
p3-matrix = "*"
p3-util = "*"
p3-air = "*"
serde = { version = "*", features = ["derive"] }

[dev-dependencies]
rand = "*"
