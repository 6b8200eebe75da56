[package]
name = "voxelrun"
version = "0.1.0"
edition = "2021"

[dependencies]
crossbeam = "0.8"
thiserror = "1"
