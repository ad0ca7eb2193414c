[package]
name = "extraction_gym"
version = "0.1.0"
edition = "2021"
publish = false

[dependencies]
indexmap = "=2.14.2"
rustc-hash = "=2.1.3"
egraph-serialize = "=0.3.0"
ordered-float = "=5.5.1"
log = "=0.4.35"
coin_cbc = "=0.1.9"
grb = { version = "=3.0.1", features = ["gurobi10"] }
highs-sys = "=1.15.0"
