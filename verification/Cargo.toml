[package]
name = "isabelle_store"
version = "0.1.0"
edition = "2021"
publish = false

[dependencies]
argon2 = "0.5"
rand = "0.8"
bson = "2"
serde_json = "1"
serde = { version = "1", features = ["derive"] }
mongodb = "3"
tokio = { version = "1", features = ["rt-multi-thread", "macros", "time"] }
async-trait = "0.1"
clap = { version = "4", features = ["derive"] }
futures-util = "0.3"
