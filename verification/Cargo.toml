[package]
name = "tls_raster"
version = "0.1.0"
edition = "2021"
publish = false

[dependencies]
image = "*"
indicatif = "*"
num_cpus = "*"
structopt = "*"
threadpool = "*"
tls_read_hancock_bin = "*"
