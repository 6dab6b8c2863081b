[package]
name = "minhash_lsh"
version = "0.1.0"
edition = "2021"
publish = false

[dependencies]
wyhash = "0.5"
rand_core = "0.6"
serde = { version = "1", features = ["derive"] }
serde_json = "1"
thiserror = "1"
chrono = "0.4"
colored = "2"
futures-util = "0.3"
probabilistic-collections = "0.7"
bson = "1"
mongodb = "1"
actix-web = "3"
