[package]
name = "my_vector_db"
version = "0.1.0"
edition = "2021"
publish = false

[dependencies]
crc32fast = "1"
rand = "0.8"
clap = { version = "4", features = ["derive"] }
tokio = { version = "1", features = ["rt-multi-thread", "macros", "net", "io-util", "sync"] }
ndarray = "0.15"
