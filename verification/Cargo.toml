[package]
name = "knot_solver"
version = "0.1.0"
edition = "2021"
publish = false

[dependencies]
bitvec = "1"
csv = "1"
num = "0.4"
rayon = "1"
serde = { version = "1", features = ["derive"] }
serde_derive = "1"
structopt = "0.3"
