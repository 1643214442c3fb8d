[package]
name = "state_db"
version = "0.1.0"
edition = "2021"
publish = false

[dependencies]
parity-scale-codec = "3"
parking_lot = "0.12"
