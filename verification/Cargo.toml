[package]
name = "astar_grid"
version = "0.1.0"
edition = "2021"
publish = false

[dependencies]
hashbrown = "0.9"
rand = "0.7"
