[package]
name = "silicon_music"
version = "0.1.0"
edition = "2021"
publish = false

[dependencies]
cookie = "0.18"
time = "0.3"
reqwest = { version = "0.12", default-features = false }
rand = "0.8"
base64 = "0.22"
sha2 = "0.10"
urlencoding = "2"
serde = { version = "1", features = ["derive"] }
serde_json = "1"
tokio = { version = "1", features = ["full"] }
axum = "0.7"
tower = { version = "0.4", features = ["util"] }
tower-http = { version = "0.5", features = ["cors", "fs"] }
windows-sys = { version = "0.59", features = ["Win32_Foundation", "Win32_Security_Cryptography", "Win32_NetworkManagement_IpHelper", "Win32_Networking_WinSock", "Win32_System_Power", "Win32_UI_WindowsAndMessaging"] }
