[package]
name = "dice_merge"
version = "0.1.0"
edition = "2021"

[dependencies]
itertools = "*"
