[package]
name = "support_hull"
version = "0.1.0"
edition = "2021"
publish = false

[dependencies]
parry3d = "0.13"
