[package]
name = "rusty_vault"
version = "0.1.0"
edition = "2021"
publish = false

[dependencies]
sodiumoxide = "*"
uuid = { version = "*", features = ["v4"] }
serde = { version = "*", features = ["derive"] }
serde_json = "*"
actix-web = "*"
