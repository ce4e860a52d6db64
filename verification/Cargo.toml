[package]
name = "battleship"
version = "0.1.0"
edition = "2021"
publish = false

[dependencies]
anyhow = "1"
axum = "0.8"
dashmap = "6"
maud = { version = "0.27", features = ["axum"] }
mime_guess = "2"
pico-args = "0.5"
rand = "0.9"
time = "0.3"
tokio = { version = "1", features = ["macros", "rt-multi-thread", "net", "signal", "time", "fs"] }
tower = "0.5"
tower-cookies = "0.11"
tower-http = { version = "0.6", features = ["compression-gzip"] }
tracing = "0.1"
tracing-subscriber = "0.3"
uuid = { version = "1", features = ["v7"] }
