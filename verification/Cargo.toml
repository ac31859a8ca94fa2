[package]
name = "sketchbook"
version = "0.1.0"
edition = "2021"
publish = false

[dependencies]
byteorder = "1"
rand = "0.8"
fastrand = "2"
uuid = { version = "1", features = ["v4"] }
csv = "1"
libloading = "0.8"
image = { version = "0.24", default-features = false, features = ["png"] }
serial = "0.4"
rouille = "3"
device_query = "2"
