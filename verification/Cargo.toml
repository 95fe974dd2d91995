[package]
name = "dicomweb"
version = "0.1.0"
edition = "2021"
publish = false

[dependencies]
base64 = "=0.13.1"
bytes = "=1.12.1"
dicom = "=0.10.0"
serde = "=1.0.229"
serde_json = "=1.0.151"
async-trait = "=0.1.92"
async-std = "=1.13.2"
http-types = "=2.12.0"
tide = { version = "=0.16.0", default-features = false, features = ["h1-server"] }
