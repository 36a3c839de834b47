[package]
name = "sortedvec"
version = "0.5.0"
edition = "2021"
publish = false

[dependencies]
faster = "*"

[dev-dependencies]
quickcheck = { version = "1", default-features = false }
