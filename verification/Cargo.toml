[package]
name = "teehee_extractor"
version = "0.1.0"
edition = "2021"
publish = false

[dependencies]
anyhow = "=1.0.104"
arrow = { version = "=60.1.0", default-features = false, features = ["ipc_compression"] }
clap = { version = "=4.6.7", features = ["derive"] }
derivative = "=2.2.0"
hdf5 = "=0.8.1"
log = "=0.4.35"
mimalloc = "=0.1.52"
ndarray = "=0.15.6"
rayon = "=1.12.0"
sha2 = "=0.10.9"
teehistorian-replayer = "=0.11.0"
twgame = "=0.11.0"
twmap = "=0.14.0"
vek = "=0.17.2"
