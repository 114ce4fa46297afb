[package]
name = "coupe"
version = "0.1.0"
edition = "2021"
publish = false

[dependencies]
rayon = "=1.12.0"
anyhow = "=1.0.104"
getopts = "=0.2.24"
affinity = "=0.1.2"
criterion = "=0.8.2"
