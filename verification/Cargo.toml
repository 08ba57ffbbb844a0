[package]
name = "positorium"
version = "0.1.4"
edition = "2021"
publish = false

[dependencies]
bigdecimal = "0.4"
unicode-normalization = "0.1"
serde = { version = "1", features = ["derive"] }
serde_json = "1"
chrono = "0.4"
roaring = "*"
getrandom = "0.3"
thiserror = "2"
bimap = "0.6"
