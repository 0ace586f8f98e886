[package]
name = "h0l0_img_host"
version = "0.1.0"
edition = "2021"
publish = false

[dependencies]
sha2 = "=0.10.9"
rand = "=0.8.8"
chrono = "=0.4.45"
serde = { version = "=1.0.229", features = ["derive"] }
rusqlite = { version = "=0.31.0", features = ["bundled"] }
rocket = { version = "=0.5.2", features = ["json"] }
