[package]
name = "record_store"
version = "0.1.0"
edition = "2021"
publish = false

[dependencies]
bcrypt = "*"
actix-web = { version = "*", default-features = false, features = ["macros"] }
actix-cors = "*"
serde = { version = "*", features = ["derive"] }
