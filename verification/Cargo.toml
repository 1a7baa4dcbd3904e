[package]
name = "kvs"
version = "0.1.0"
edition = "2021"
publish = false

[dependencies]
serde = { version = "1", features = ["derive"] }
serde_json = "1"
crossbeam-channel = "0.5"
rayon = "1"
log = "0.4"
env_logger = "0.10"
num_cpus = "1"
clap = "2"
structopt = "0.3"
sled = "0.34"
