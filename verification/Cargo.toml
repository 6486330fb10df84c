[package]
name = "tts_library"
version = "0.1.0"
edition = "2021"
publish = false

[dependencies]
scraper = "0.29"
ego-tree = "0.11"
chrono = { version = "0.4", features = ["serde"] }
uuid = { version = "1", features = ["v4"] }
serde = { version = "1", features = ["derive"] }
serde_json = "1"
lopdf = "0.46"
epub = "2.1"
arboard = { version = "3", default-features = false }
log = "0.4"
windows = { version = "0.62", features = ["Win32_Media_Speech", "Win32_System_Com", "Win32_Foundation"] }
