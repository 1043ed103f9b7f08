[package]
name = "tekfor"
version = "0.1.0"
edition = "2021"
publish = false

[dependencies]
anyhow = "*"
hecs = "*"
macroquad = "*"
mlua = { version = "*", features = ["lua54", "vendored", "serialize"] }
serde = { version = "*", features = ["derive"] }
strum = { version = "*", features = ["derive"] }
