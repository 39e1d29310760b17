[package]
name = "limn"
version = "0.1.0"
edition = "2021"
publish = false

[dependencies]
cassowary = "0.3"
linked-hash-map = "0.5"
stable_bst = "0.2"
petgraph = "*"
euclid = "*"
app_units = "*"
rusttype = "*"
find_folder = "*"
