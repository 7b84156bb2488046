[package]
name = "js_source_mapper"
version = "0.1.0"
edition = "2021"
publish = false

[dependencies]
rustc-serialize = "*"

[dev-dependencies]
quickcheck = "0.9"
