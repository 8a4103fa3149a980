[package]
name = "uni_schedule"
version = "0.1.0"
edition = "2021"
publish = false

[dependencies]
uuid = { version = "=1.29.0", features = ["v7", "serde"] }
chrono = { version = "=0.4.45", features = ["serde"] }
serde = { version = "1", features = ["derive"] }
dirs = "=7.0.0"
thiserror = "2"
once_cell = "1"
native_db = "=0.8.2"
native_model = "0.4"
bincode = "1.3"
sled = "0.34"
tokio = { version = "1", features = ["sync"] }
tauri = { version = "2", default-features = false }
