[package]
name = "lammps_sys"
version = "0.5.0"
edition = "2021"
publish = false

[dependencies]
bindgen = "*"
cmake = "*"
pkg-config = "*"
walkdir = "*"
path_abs = "*"
