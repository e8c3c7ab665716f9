[package]
name = "contacts"
version = "0.1.0"
edition = "2021"
publish = false

[dependencies]
hdk = { version = "=0.4.4", features = ["encoding"] }
hdi = "=0.5.4"
serde = { version = "=1.0.203", features = ["derive"] }
