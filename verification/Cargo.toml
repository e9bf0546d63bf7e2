[package]
name = "jos_core"
version = "0.1.0"
edition = "2021"
publish = false

[dependencies]
postcard = { version = "1", default-features = false }
serde = { version = "1", default-features = false, features = ["derive"] }
