[package]
name = "tangential"
version = "0.1.0"
edition = "2021"
publish = false

[dependencies]
directories = "*"
rusqlite = "*"
serde = { version = "1", features = ["derive"] }
uuid = { version = "1", features = ["v4"] }
