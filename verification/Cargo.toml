[package]
name = "rustful"
version = "0.1.0"
edition = "2021"
publish = false

[dependencies]
url = "=1.7.2"
hyper = "=0.10.16"
time = "=0.1.45"
num_cpus = "=1.17.0"
anymap = "0.12"
