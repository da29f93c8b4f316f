[package]
name = "mesh_p2p_share"
version = "0.1.0"
edition = "2021"
publish = false

[dependencies]
crc32fast = "1"
uuid = { version = "1", features = ["v4"] }
serde = { version = "1", features = ["derive"] }
serde_json = "1"
tokio = { version = "1", features = ["full"] }
axum = { version = "0.8", features = ["ws"] }
axum-server = { version = "0.7", features = ["tls-rustls"] }
tower-http = { version = "0.6", features = ["fs"] }
rcgen = "0.12"
futures-util = "0.3"
