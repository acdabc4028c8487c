[package]
name = "preset_browser"
version = "0.1.0"
edition = "2021"
publish = false

[dependencies]
natord = "1"
ordered_hash_map = "*"
multi_key_map = "*"
serde = { version = "1", features = ["derive"] }
serde_json = "1"
directories = "*"
rusqlite = "*"
rodio = "0.21"
