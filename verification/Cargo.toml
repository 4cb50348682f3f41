[package]
name = "keepass"
version = "0.1.0"
edition = "2021"
publish = false

[dependencies]
base64 = "0.22"
chrono = "0.4"
hex = "0.4"
quick-xml = { version = "0.38", features = ["serialize"] }
rpassword = "7"
serde = { version = "1", features = ["derive"] }
sha2 = "0.10"
thiserror = "2"
zeroize = "1"
