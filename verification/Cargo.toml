[package]
name = "order_maintenance"
version = "0.1.0"
edition = "2021"
publish = false

[dependencies]
slab = "=0.4.12"

[dev-dependencies]
rand = "0.8"
