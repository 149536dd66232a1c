[package]
name = "mlrs-backend"
version = "0.1.0"
edition = "2021"
publish = false

[dependencies]
bytemuck = "1"
log = "0.4"
