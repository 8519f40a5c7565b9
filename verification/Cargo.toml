[package]
name = "simd_normalizer"
version = "0.1.0"
edition = "2021"
publish = false

[dependencies]
unicode-normalization = "*"
unicode-security = "*"
unicode-case-mapping = "*"
