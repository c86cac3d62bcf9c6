[package]
name = "minikeyvalue"
version = "0.1.0"
edition = "2021"
publish = false

[dependencies]
md5 = "*"
base64 = "*"
serde = { version = "*", features = ["derive"] }
serde_json = "*"
tiny_http = "*"
reqwest = { version = "*", default-features = false, features = ["blocking"] }
clap = "*"
crossbeam = "*"
ascii = "*"
