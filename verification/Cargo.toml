[package]
name = "ghostline_red"
version = "0.1.0"
edition = "2021"
publish = false

[dependencies]
anyhow = "=1.0.104"
base64 = "=0.22.1"
clap = { version = "=4.6.7", features = ["derive"] }
crc32fast = "=1.5.4"
half = "=2.7.1"
image = { version = "=0.25.10", default-features = false, features = ["png"] }
libloading = "=0.8.9"
pathdiff = "=0.2.3"
png = "=0.18.1"
rayon = "=1.12.0"
regex = "=1.13.1"
serde = { version = "=1.0.229", features = ["derive"] }
serde_json = { version = "=1.0.154", features = ["unbounded_depth"] }
serde_stacker = "=0.1.14"
sha1 = "=0.10.7"
tempfile = "=3.27.0"
texture2ddecoder = "=0.1.2"
thiserror = "=2.0.21"
