[package]
name = "turbulence"
version = "0.4.0"
edition = "2021"
publish = false

[dependencies]
bincode = "1.3"
byteorder = "1"
crossbeam = "0.7"
crossbeam-channel = "0.5"
futures = "0.3"
num-traits = "0.2"
rand = { version = "0.8", features = ["small_rng"] }
rustc-hash = "1.1"
serde = { version = "1", features = ["derive"] }
smol = "1"
snap = "1"
thiserror = "1"
