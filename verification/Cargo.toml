[package]
name = "pq_das"
version = "0.1.0"
edition = "2021"
publish = false

[dependencies]
p3-koala-bear = "*"
p3-field = "*"
p3-symmetric = "*"
p3-poseidon2 = "*"
sha2 = "*"
clap = { version = "4", features = ["derive"] }
