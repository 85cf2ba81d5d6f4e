[package]
name = "pawn_race"
version = "0.1.0"
edition = "2021"
publish = false

[dependencies]
lazy_static = "1.4"
rand = { version = "0.8", default-features = false }
rand_pcg = "0.3"
