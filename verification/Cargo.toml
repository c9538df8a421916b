[package]
name = "buffa_reflect"
version = "0.1.0"
edition = "2021"
publish = false

[dependencies]
buffa = "0.4"
buffa-descriptor = "0.4"
buffa-build = "0.4"
base64 = "0.22"
serde = { version = "1", features = ["derive"] }
serde_json = "1"
chrono = "0.4"
hashbrown = "0.15"
thiserror = "2"
logos = "0.15"
