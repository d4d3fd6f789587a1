[package]
name = "balance_tracker"
version = "0.1.0"
edition = "2021"
publish = false

[dependencies]
astroport = "=5.9.0"
cosmwasm-schema = "=1.5.11"
cosmwasm-std = "=1.5.11"
cw2 = "=1.1.2"
