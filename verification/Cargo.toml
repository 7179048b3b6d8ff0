[package]
name = "bulbasaur"
version = "0.1.0"
edition = "2021"
publish = false

[dependencies]
ahash = "0.8"
clap = "4"
colored = "2"
libc = "0.2"
libloading = "0.8"
log = "0.4"
memmap = "0.7"
ndarray = "0.15"
ndarray-rand = "0.14"
ndarray-stats = "0.5"
nix = { version = "0.29", features = ["poll", "process", "signal", "fs"] }
num = "0.4"
num_cpus = "1"
pretty_env_logger = "0.5"
priority-queue = "2"
rand = "0.8"
serde = "1"
serde_derive = "1"
serde_json = "1"
signal-hook = "0.3"
twoway = "0.2"
walkdir = "2"
