[package]
name = "aurora"
version = "0.1.0"
edition = "2021"
publish = false

[dependencies]
rand = "0.8"
num_cpus = "1"
nalgebra = "0.32"
image = { version = "0.24", default-features = false, features = ["png"] }
clap = "2"
thread_local = "1"
