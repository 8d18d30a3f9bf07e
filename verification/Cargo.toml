[package]
name = "threadboard"
version = "0.1.0"
edition = "2021"
publish = false

[dependencies]
sled = "0.34"
uuid = { version = "1", features = ["v4"] }
serde = { version = "1", features = ["derive"] }
actix-web = "4"
actix-multipart = "0.6"
actix-files = "0.6"
futures-util = "0.3"
