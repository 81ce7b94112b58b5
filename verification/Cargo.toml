[package]
name = "graphrs"
version = "0.1.0"
edition = "2021"
publish = false

[dependencies]
rand = "=0.8.8"
rand_chacha = "=0.3.1"
rayon = "1"
nalgebra = "*"
ndarray = "*"
sprs = "*"
orx-priority-queue = "*"
lapack-sys = "*"
