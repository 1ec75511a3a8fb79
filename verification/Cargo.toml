[package]
name = "ic_oss"
version = "0.1.0"
edition = "2021"
publish = false

[dependencies]
object_store = { version = "=0.14.2", default-features = false }
hex = "=0.4.3"
url = "2"
base64 = "0.22"
hyperx = "1"
