[package]
name = "smtp_relay"
version = "0.1.0"
edition = "2021"
publish = false

[dependencies]
mailparse = "*"
tokio = { version = "*", features = ["full"] }
futures = "*"
trust-dns-resolver = "*"
native-tls = "*"
tokio-native-tls = "*"
uuid = { version = "*", features = ["v4"] }

[dev-dependencies]
base64 = "*"
quoted_printable = "*"
