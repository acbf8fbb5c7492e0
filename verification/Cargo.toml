[package]
name = "postgres_extension"
version = "0.1.0"
edition = "2021"
publish = false

[dependencies]
libc = "0.2"
cee-scape = "*"
syn = { version = "0.15", features = ["full"] }
quote = "0.6"
