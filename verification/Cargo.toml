[package]
name = "neat_py"
version = "0.1.0"
edition = "2021"
publish = false

[dependencies]
neat-rs = "=0.1.82"
slow_nn = "=0.1.22"
pyo3 = "=0.29.3"
rand = "=0.7.3"
