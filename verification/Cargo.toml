[package]
name = "selection_sort"
version = "0.1.0"
edition = "2021"
publish = false

[dependencies]
anyhow = "1"
rand = "0.8"
rand_chacha = "0.3"
