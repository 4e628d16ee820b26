[package]
name = "catvec"
version = "0.1.0"
edition = "2021"

[dependencies]
arrayvec = "*"
fastrand = "*"
arbitrary = { version = "*", features = ["derive"] }
