[package]
name = "crxtool"
version = "0.1.0"
edition = "2021"
publish = false

[dependencies]
zstd = "*"
fdeflate = "*"
png = "*"
clap = { version = "*", features = ["derive"] }
anyhow = "*"
lazy_static = "*"
case_insensitive_hashmap = "*"
