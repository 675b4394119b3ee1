[package]
name = "ure"
version = "0.1.0"
edition = "2021"
publish = false

[dependencies]
rand = "0.9"
bimap = { version = "0.6", features = ["serde"] }
const-fnv1a-hash = "1"
indexmap = "2"
bitvec = "1"
one-or-many = "*"
serde = { version = "1", features = ["derive"] }
