[package]
name = "rs3_pathfinding"
version = "0.1.0"
edition = "2021"
publish = false

[dependencies]
zune-inflate = "*"
ndarray = "*"
ndarray-npy = "*"
indicatif = "*"
