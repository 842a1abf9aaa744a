[package]
name = "rest_core"
version = "0.1.0"
edition = "2021"
publish = false

[dependencies]
haversine = "*"
csv = "*"
serde = { version = "*", features = ["derive"] }
serde_json = "*"
rstar = "*"
itertools = "*"
append-only-vec = "*"
plotters = "*"
dtw_rs_band_fork = "*"
