[package]
name = "identity_tree"
version = "0.1.0"
edition = "2021"
publish = false

[dependencies]
semaphore-rs = "=0.6.0"
semaphore-rs-trees = "=0.6.0"
semaphore-rs-poseidon = "=0.6.0"
serde = { version = "=1.0.229", features = ["derive"] }
toml = "=1.1.7"
