[package]
name = "hnefatafl"
version = "0.1.0"
edition = "2021"
publish = false

[dependencies]
ahash = "*"
hashbrown = "*"
rand = "*"
crossterm = "*"
rayon = "*"
