[package]
name = "route"
version = "0.1.0"
edition = "2021"
publish = false

[dependencies]
rand = "0.8"
bincode = "1"
serde = { version = "1", features = ["derive"] }
serde_json = "1"
rayon = "1"
rouille = "3"
osmpbfreader = "*"
