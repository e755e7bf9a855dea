[package]
name = "linktag"
version = "0.1.0"
edition = "2021"
publish = false

[dependencies]
hashbrown = "=0.9.1"
cursive = { version = "=0.21.1", default-features = false, features = ["crossterm-backend"] }
