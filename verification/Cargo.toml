[package]
name = "tree"
version = "0.1.0"
edition = "2021"
publish = false

[dependencies]
compare = "0.1.0"

[dev-dependencies]
quickcheck = { version = "1", default-features = false }
