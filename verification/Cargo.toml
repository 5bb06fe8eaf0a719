[package]
name = "woodpecker"
version = "0.4.0"
edition = "2021"
publish = false

[dependencies]
serde_json = "1"
chrono = "0.4"
parking_lot = "0.12"
crossbeam = "0.8"
lazy_static = "1"
thread-id = "4"
time = "0.1"
