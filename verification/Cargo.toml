[package]
name = "cold_clear"
version = "0.1.0"
edition = "2021"
publish = false

[dependencies]
rand = "0.7"
rand_pcg = "0.2"
serde = { version = "1", features = ["derive"] }
serde_json = "1"
arrayvec = "0.5"
enumset = { version = "1", features = ["serde"] }
