[package]
name = "cres"
version = "0.1.0"
edition = "2021"
publish = false

[dependencies]
regex = "=1.13.1"
particle_id = "=0.5.1"
ntuple = "=0.10.0"
audec = "=0.1.0"
bzip2 = "=0.6.1"
flate2 = "=1.1.10"
lz4 = "=1.28.1"
zstd = "=0.14.3"
clap = { version = "=4.6.7", features = ["derive"] }
anyhow = "=1.0.104"
log = "=0.4.35"
env_logger = "=0.11.11"
thiserror = "=1.0.69"
noisy_float = "=0.2.1"
argfile = "=1.0.0"
rand = "=0.8.8"
jetty = "*"
