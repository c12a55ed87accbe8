[package]
name = "pocketstream-network"
version = "0.1.0"
edition = "2021"
publish = false

[dependencies]
chrono = "0.4"
ipnetwork = "0.20"
libloading = "0.8"
log = "0.4"
pnet = "0.35"
serde = { version = "1", features = ["derive"] }
serde_json = "1"
tauri = { version = "2", default-features = false }
tokio = { version = "1", features = ["full"] }
windows-sys = { version = "0.59", features = ["Win32_Foundation", "Win32_NetworkManagement_IpHelper", "Win32_NetworkManagement_Ndis", "Win32_Networking_WinSock"] }
