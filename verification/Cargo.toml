[package]
name = "action_path"
version = "0.1.0"
edition = "2021"
publish = false

[dependencies]
percent-encoding = "2"
nom = { version = "5", default-features = false, features = ["std"] }
nom_locate = "2"
serde = { version = "1", features = ["derive"] }
serde_json = "1"
strum = "0.26"
strum_macros = "0.26"
