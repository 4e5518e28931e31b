[package]
name = "wmp_modern"
version = "0.4.0"
edition = "2021"
publish = false

[dependencies]
base64 = "0.22"
serde = { version = "1", features = ["derive"] }
anyhow = "1"
parking_lot = "0.12"
pollster = "0.4"
rustfft = "6"
wasapi = "0.19"
windows = { version = "0.61", features = ["Media_Control", "Storage_Streams", "Foundation", "Win32_Foundation", "Win32_System_Com", "Win32_System_Threading"] }
