[package]
name = "seat_generator"
version = "0.1.0"
edition = "2021"
publish = false

[dependencies]
rand = "0.9"
serde = { version = "1", features = ["derive"] }
serde_json = "1"
umya-spreadsheet = { version = "2", default-features = false }
reqwest = { version = "0.12", default-features = false, features = ["blocking", "multipart"] }
