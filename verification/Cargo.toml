[package]
name = "expectimax_2048"
version = "0.1.0"
edition = "2021"
publish = false

[dependencies]
rand = "0.8.5"
rand_xoshiro = "0.6.0"
crossterm = "*"
matrix_display = "*"
