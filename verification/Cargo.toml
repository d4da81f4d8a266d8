[package]
name = "fotobuch"
version = "0.1.0"
edition = "2021"
publish = false

[dependencies]
anyhow = "1"
good_lp = { version = "1", default-features = false, features = ["highs"] }
rand = "0.8"
rayon = "1"
thiserror = "2"
tracing = "0.1"
