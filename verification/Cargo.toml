[package]
name = "meshtastic-serial-udp"
version = "0.1.0"
edition = "2021"
publish = false

[dependencies]
aes = "0.8"
base64 = "0.22"
serde = { version = "1", features = ["derive"] }
serde_json = "1"
clap = { version = "4", features = ["derive"] }
env_logger = "0.11"
log = "0.4"
prost = "0.13"
rand = "0.8"
serialport = { version = "4", default-features = false }
socket2 = "0.5"
