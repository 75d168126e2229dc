[package]
name = "monarch"
version = "0.1.0"
edition = "2021"
publish = false

[dependencies]
font8x8 = { version = "=0.3.1", default-features = false }
limine = "=0.5.0"
