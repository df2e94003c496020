[package]
name = "net_ensembles"
version = "0.1.0"
edition = "2021"
publish = false

[dependencies]
rand = "0.8"
serde = { version = "1", features = ["derive"] }

[dev-dependencies]
rand_pcg = "0.3"
