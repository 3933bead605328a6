[package]
name = "fractal_worker"
version = "0.1.0"
edition = "2021"
publish = false

[dependencies]
image = { version = "0.24", default-features = false, features = ["png"] }
abi_stable = "0.10"
serde = { version = "1", features = ["derive"] }
serde_yaml = "0.8"
serde_json = "1"
rmp-serde = "1"
anyhow = "1"
tempfile = "3"
rayon = "1"
rand = "0.8"
num = "0.4"
ultraviolet = "0.9"
log = "0.4"
env_logger = "0.9"
structopt = "0.3"
itertools = "0.10"
