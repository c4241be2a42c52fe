[package]
name = "transpors"
version = "0.1.0"
edition = "2021"
publish = false

[dependencies]
chrono = "0.4"
dirs = "*"
gtfs-structures = { version = "*", default-features = false }
serde = { version = "1", features = ["derive"] }
serde_yaml = "*"
