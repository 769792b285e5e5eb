[package]
name = "esp_vtx_gs_rs"
version = "0.1.0"
edition = "2021"
publish = false

[dependencies]
crc = "*"
radiotap = "*"
zfec-rs = "*"
pcap = "*"
clap = { version = "*", features = ["derive"] }
