[package]
name = "station_stats"
version = "0.1.0"
edition = "2021"
publish = false

[dependencies]
memmap2 = "0.9"
rand = "0.9"
rayon = "1"
rustc-hash = "2"
