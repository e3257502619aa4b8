[package]
name = "shamir_mpc"
version = "0.1.0"
edition = "2021"
publish = false

[dependencies]
rand = "0.8"
tokio = { version = "1", features = ["net", "io-util", "sync", "time", "macros", "rt-multi-thread"] }

[dev-dependencies]
ark-ff = "0.4"
ark-poly = "0.4"
ark-std = "0.4"
