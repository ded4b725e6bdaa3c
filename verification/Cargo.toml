[package]
name = "sosw"
version = "0.1.0"
edition = "2021"
publish = false

[dependencies]
crc = "3"
reed-solomon = "0.2"
rand = "0.9"
rand_chacha = "0.9"
anyhow = "1"
clap = { version = "4", features = ["derive"] }
cpal = "*"
num-complex = "0.4"
rustfft = "6"
ndarray = "0.16"
serde = { version = "1", features = ["derive"] }
log = "0.4"
env_logger = "0.11"
tappers = "*"
