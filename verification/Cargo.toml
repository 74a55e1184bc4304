[package]
name = "tau"
version = "0.1.0"
edition = "2021"
publish = false

[dependencies]
base64 = "0.22"
ciborium = "0.2"
crossterm = "*"
dirs = "*"
fs2 = "0.4"
globset = "0.4"
ignore = "0.4"
libc = "0.2"
rand = "0.8"
serde = { version = "1", features = ["derive"] }
serde_json = "1"
tempfile = "3"
tracing = "0.1"
tracing-subscriber = { version = "0.3", features = ["env-filter"] }
ureq = { version = "*", default-features = false }

[dev-dependencies]
vt100 = "*"
