[package]
name = "bytedata"
version = "0.1.0"
edition = "2021"
publish = false

[dependencies]
bytes = "1"
http = "1"
http-body = "1"
nom = "7"
serde = "1"
arbitrary = "1"
postgres-types = "0.2"
dashmap = "6"
