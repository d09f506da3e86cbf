[package]
name = "state_res"
version = "0.1.0"
edition = "2021"
publish = false

[dependencies]
futures-util = "0.3"
itertools = "0.12"
js_int = "0.2"
ruma-events = "0.28"
serde = { version = "1", features = ["derive"] }
serde_json = "1"
