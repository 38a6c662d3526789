[package]
name = "candle_lm"
version = "0.1.0"
edition = "2021"
publish = false

[dependencies]
candle-core = "=0.11.1"
candle-nn = "=0.11.1"
cudarc = { version = "0.19", default-features = false, features = ["std", "driver", "cublaslt", "f16", "cuda-12080", "dynamic-loading"] }
parking_lot = "=0.13.0"
rayon = "=1.12.0"
serde = { version = "=1.0.229", features = ["derive"] }

[dev-dependencies]
float8 = "=0.7.0"
