[package]
name = "jago"
version = "0.1.0"
edition = "2021"
publish = false

[dependencies]
unicode-segmentation = "1"
crossterm = "0.22"
itertools = "0.10"
rand = "0.8"
thiserror = "1"
