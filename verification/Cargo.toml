[package]
name = "libzstd_bitexact"
version = "0.157.0"
edition = "2021"
publish = false

[dev-dependencies]
zstd = { version = "0.13", default-features = false, features = ["arrays", "zdict_builder", "zstdmt"] }
zstd-safe = { version = "7", default-features = false, features = ["arrays", "zdict_builder", "zstdmt"] }
