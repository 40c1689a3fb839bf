[package]
name = "deduplicator"
version = "0.3.0"
edition = "2021"
publish = false

[dependencies]
anyhow = "=1.0.104"
clap = { version = "=4.6.7", features = ["derive"] }
colored = "=3.1.1"
dashmap = "=6.2.1"
gxhash = "=2.3.1"
indicatif = "=0.18.6"
rand = "=0.9.5"
rayon = "=1.12.0"
threadpool = "=1.8.1"
unicode-segmentation = "=1.13.3"
