[package]
name = "game_engine"
version = "0.1.0"
edition = "2021"
publish = false

[dependencies]
sdl2 = "=0.38.0"
parry2d-f64 = "=0.17.6"
