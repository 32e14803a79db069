[package]
name = "bench_cases"
version = "0.1.0"
edition = "2021"
publish = false

[dependencies]
argon2 = "0.5"
foldhash = "0.1"
hashbrown = "0.15"
miniz_oxide = "0.8"
serde_json = "1"
