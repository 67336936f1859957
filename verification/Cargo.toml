[package]
name = "tlt_stops"
version = "0.1.0"
edition = "2021"
publish = false

[dependencies]
chrono = "0.4"
chrono-tz = "*"
futures = "0.3"
js-sys = "0.3"
memchr = "2"
serde = { version = "1", features = ["derive"] }
urlencoding = "2"
utoipa = "*"
worker = "*"
