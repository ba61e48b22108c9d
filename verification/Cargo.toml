[package]
name = "blackjack"
version = "0.1.0"
edition = "2021"
publish = false

[dependencies]
rand = "0.9"
rand_chacha = "0.9"
serde = { version = "1", features = ["derive"] }

[dev-dependencies]
serde_json = "1"
